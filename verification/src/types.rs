//! The values of a FON record, records (collections) and dumps of records.

use std::collections::HashMap;

use vstd::prelude::*;
use vstd::std_specs::iter::IteratorSpec;

use crate::raw_data::{RawData, RawModel};

verus! {

/// Type tag of 8-bit unsigned values (`'e'`).
pub const TYPE_BYTE: u8 = 101;
/// Type tag of 16-bit signed values (`'t'`).
pub const TYPE_SHORT: u8 = 116;
/// Type tag of 32-bit signed values (`'i'`).
pub const TYPE_INT: u8 = 105;
/// Type tag of 32-bit unsigned values (`'u'`).
pub const TYPE_UINT: u8 = 117;
/// Type tag of 64-bit signed values (`'l'`).
pub const TYPE_LONG: u8 = 108;
/// Type tag of 64-bit unsigned values (`'g'`).
pub const TYPE_ULONG: u8 = 103;
/// Type tag of single-precision values (`'f'`).
pub const TYPE_FLOAT: u8 = 102;
/// Type tag of double-precision values (`'d'`).
pub const TYPE_DOUBLE: u8 = 100;
/// Type tag of booleans (`'b'`).
pub const TYPE_BOOL: u8 = 98;
/// Type tag of strings (`'s'`).
pub const TYPE_STRING: u8 = 115;
/// Type tag of raw payloads (`'r'`).
pub const TYPE_RAW: u8 = 114;
/// Type tag of nested records (`'o'`).
pub const TYPE_OBJECT: u8 = 111;

/// The integer types a value can have.
#[derive(PartialEq, Eq, Structural, Clone, Copy, Debug)]
pub enum IntKind {
    Byte,
    Short,
    Int,
    UInt,
    Long,
    ULong,
}

/// The floating-point types a value can have.
#[derive(PartialEq, Eq, Structural, Clone, Copy, Debug)]
pub enum FloatKind {
    Single,
    Double,
}

/// The smallest value of an integer kind.
pub open spec fn int_min(k: IntKind) -> int {
    match k {
        IntKind::Byte => 0,
        IntKind::Short => -32768,
        IntKind::Int => -2147483648,
        IntKind::UInt => 0,
        IntKind::Long => -9223372036854775808,
        IntKind::ULong => 0,
    }
}

/// The largest value of an integer kind.
pub open spec fn int_max(k: IntKind) -> int {
    match k {
        IntKind::Byte => 255,
        IntKind::Short => 32767,
        IntKind::Int => 2147483647,
        IntKind::UInt => 4294967295,
        IntKind::Long => 9223372036854775807,
        IntKind::ULong => 18446744073709551615,
    }
}

/// The type tag of an integer kind.
pub open spec fn int_tag(k: IntKind) -> u8 {
    match k {
        IntKind::Byte => TYPE_BYTE,
        IntKind::Short => TYPE_SHORT,
        IntKind::Int => TYPE_INT,
        IntKind::UInt => TYPE_UINT,
        IntKind::Long => TYPE_LONG,
        IntKind::ULong => TYPE_ULONG,
    }
}

/// The type tag of a floating-point kind.
pub open spec fn float_tag(k: FloatKind) -> u8 {
    match k {
        FloatKind::Single => TYPE_FLOAT,
        FloatKind::Double => TYPE_DOUBLE,
    }
}

/// What a value is. Integers of all widths are numbers with their kind;
/// floating-point values are the decimal text that stands for them.
pub enum ValueModel {
    Integer(IntKind, int),
    Decimal(FloatKind, Seq<char>),
    Bool(bool),
    Text(Seq<char>),
    Raw(RawModel),
    Object(Seq<(Seq<char>, ValueModel)>),
    Integers(IntKind, Seq<int>),
    Decimals(FloatKind, Seq<Seq<char>>),
    Bools(Seq<bool>),
    Texts(Seq<Seq<char>>),
    Objects(Seq<Seq<(Seq<char>, ValueModel)>>),
}

/// The type tag a value is written with.
pub open spec fn tag_of(v: ValueModel) -> u8 {
    match v {
        ValueModel::Integer(k, _) => int_tag(k),
        ValueModel::Integers(k, _) => int_tag(k),
        ValueModel::Decimal(k, _) => float_tag(k),
        ValueModel::Decimals(k, _) => float_tag(k),
        ValueModel::Bool(_) => TYPE_BOOL,
        ValueModel::Bools(_) => TYPE_BOOL,
        ValueModel::Text(_) => TYPE_STRING,
        ValueModel::Texts(_) => TYPE_STRING,
        ValueModel::Raw(_) => TYPE_RAW,
        ValueModel::Object(_) => TYPE_OBJECT,
        ValueModel::Objects(_) => TYPE_OBJECT,
    }
}

/// A value of a record. Floating-point values hold the decimal text of the
/// number (such as `1.5`, `-2e10`, `inf` or `nan`).
pub enum FonValue {
    Byte(u8),
    Short(i16),
    Int(i32),
    UInt(u32),
    Long(i64),
    ULong(u64),
    Float(String),
    Double(String),
    Bool(bool),
    String(String),
    Raw(Box<RawData>),
    Object(Box<FonCollection>),
    ByteArray(Vec<u8>),
    ShortArray(Vec<i16>),
    IntArray(Vec<i32>),
    UIntArray(Vec<u32>),
    LongArray(Vec<i64>),
    ULongArray(Vec<u64>),
    FloatArray(Vec<String>),
    DoubleArray(Vec<String>),
    BoolArray(Vec<bool>),
    StringArray(Vec<String>),
    ObjectArray(Vec<Box<FonCollection>>),
}

/// A record: its fields in the order they were added.
pub struct FonCollection {
    data: Vec<(String, FonValue)>,
}

/// The fields of a record.
pub closed spec fn collection_model(c: FonCollection) -> Seq<(Seq<char>, ValueModel)>
    decreases c,
{
    entries_model(c.data@)
}

/// The fields of a sequence of entries.
pub closed spec fn entries_model(s: Seq<(String, FonValue)>) -> Seq<(Seq<char>, ValueModel)>
    decreases s,
{
    if s.len() == 0 {
        Seq::empty()
    } else {
        entries_model(s.subrange(0, s.len() - 1)).push(
            (s[s.len() - 1].0@, s[s.len() - 1].1.model()),
        )
    }
}

/// The records of a sequence of boxed records.
pub closed spec fn objects_model(s: Seq<Box<FonCollection>>) -> Seq<
    Seq<(Seq<char>, ValueModel)>,
>
    decreases s,
{
    if s.len() == 0 {
        Seq::empty()
    } else {
        objects_model(s.subrange(0, s.len() - 1)).push(collection_model(*s[s.len() - 1]))
    }
}

impl View for FonCollection {
    type V = Seq<(Seq<char>, ValueModel)>;

    open spec fn view(&self) -> Seq<(Seq<char>, ValueModel)> {
        collection_model(*self)
    }
}

proof fn lemma_entries_model(s: Seq<(String, FonValue)>)
    ensures
        entries_model(s).len() == s.len(),
        forall|i: int|
            0 <= i < s.len() ==> #[trigger] entries_model(s)[i] == (s[i].0@, s[i].1.model()),
    decreases s.len(),
{
    if s.len() > 0 {
        lemma_entries_model(s.subrange(0, s.len() - 1));
    }
}

/// The model of a sequence of boxed records, element by element.
pub proof fn lemma_objects_model(s: Seq<Box<FonCollection>>)
    ensures
        objects_model(s).len() == s.len(),
        forall|i: int| 0 <= i < s.len() ==> #[trigger] objects_model(s)[i] == (*s[i])@,
    decreases s.len(),
{
    if s.len() > 0 {
        lemma_objects_model(s.subrange(0, s.len() - 1));
    }
}

impl FonValue {
    /// What the value is.
    pub open spec fn model(&self) -> ValueModel
        decreases self,
    {
        match self {
            FonValue::Byte(v) => ValueModel::Integer(IntKind::Byte, *v as int),
            FonValue::Short(v) => ValueModel::Integer(IntKind::Short, *v as int),
            FonValue::Int(v) => ValueModel::Integer(IntKind::Int, *v as int),
            FonValue::UInt(v) => ValueModel::Integer(IntKind::UInt, *v as int),
            FonValue::Long(v) => ValueModel::Integer(IntKind::Long, *v as int),
            FonValue::ULong(v) => ValueModel::Integer(IntKind::ULong, *v as int),
            FonValue::Float(t) => ValueModel::Decimal(FloatKind::Single, t@),
            FonValue::Double(t) => ValueModel::Decimal(FloatKind::Double, t@),
            FonValue::Bool(b) => ValueModel::Bool(*b),
            FonValue::String(s) => ValueModel::Text(s@),
            FonValue::Raw(r) => ValueModel::Raw((**r)@),
            FonValue::Object(c) => ValueModel::Object(collection_model(**c)),
            FonValue::ByteArray(v) => ValueModel::Integers(
                IntKind::Byte,
                v@.map_values(|x: u8| x as int),
            ),
            FonValue::ShortArray(v) => ValueModel::Integers(
                IntKind::Short,
                v@.map_values(|x: i16| x as int),
            ),
            FonValue::IntArray(v) => ValueModel::Integers(
                IntKind::Int,
                v@.map_values(|x: i32| x as int),
            ),
            FonValue::UIntArray(v) => ValueModel::Integers(
                IntKind::UInt,
                v@.map_values(|x: u32| x as int),
            ),
            FonValue::LongArray(v) => ValueModel::Integers(
                IntKind::Long,
                v@.map_values(|x: i64| x as int),
            ),
            FonValue::ULongArray(v) => ValueModel::Integers(
                IntKind::ULong,
                v@.map_values(|x: u64| x as int),
            ),
            FonValue::FloatArray(v) => ValueModel::Decimals(
                FloatKind::Single,
                v@.map_values(|t: String| t@),
            ),
            FonValue::DoubleArray(v) => ValueModel::Decimals(
                FloatKind::Double,
                v@.map_values(|t: String| t@),
            ),
            FonValue::BoolArray(v) => ValueModel::Bools(v@),
            FonValue::StringArray(v) => ValueModel::Texts(v@.map_values(|t: String| t@)),
            FonValue::ObjectArray(v) => ValueModel::Objects(objects_model(v@)),
        }
    }

    /// The type tag the value is written with.
    pub fn type_char(&self) -> (r: u8)
        ensures
            r == tag_of(self.model()),
    {
        match self {
            FonValue::Byte(_) | FonValue::ByteArray(_) => TYPE_BYTE,
            FonValue::Short(_) | FonValue::ShortArray(_) => TYPE_SHORT,
            FonValue::Int(_) | FonValue::IntArray(_) => TYPE_INT,
            FonValue::UInt(_) | FonValue::UIntArray(_) => TYPE_UINT,
            FonValue::Long(_) | FonValue::LongArray(_) => TYPE_LONG,
            FonValue::ULong(_) | FonValue::ULongArray(_) => TYPE_ULONG,
            FonValue::Float(_) | FonValue::FloatArray(_) => TYPE_FLOAT,
            FonValue::Double(_) | FonValue::DoubleArray(_) => TYPE_DOUBLE,
            FonValue::Bool(_) | FonValue::BoolArray(_) => TYPE_BOOL,
            FonValue::String(_) | FonValue::StringArray(_) => TYPE_STRING,
            FonValue::Raw(_) => TYPE_RAW,
            FonValue::Object(_) | FonValue::ObjectArray(_) => TYPE_OBJECT,
        }
    }
}

/// The position of the first field whose key is `key`.
pub open spec fn first_key_index(fs: Seq<(Seq<char>, ValueModel)>, key: Seq<char>) -> Option<int> {
    if exists|i: int| 0 <= i < fs.len() && #[trigger] fs[i].0 == key {
        Some(
            choose|i: int|
                0 <= i < fs.len() && #[trigger] fs[i].0 == key && forall|j: int|
                    0 <= j < i ==> fs[j].0 != key,
        )
    } else {
        None
    }
}

proof fn lemma_first_key_index(fs: Seq<(Seq<char>, ValueModel)>, key: Seq<char>, i: int)
    requires
        0 <= i < fs.len(),
        fs[i].0 == key,
        forall|j: int| 0 <= j < i ==> fs[j].0 != key,
    ensures
        first_key_index(fs, key) == Some(i),
{
    let k = choose|k: int|
        0 <= k < fs.len() && #[trigger] fs[k].0 == key && forall|j: int|
            0 <= j < k ==> fs[j].0 != key;
    assert(0 <= k < fs.len() && fs[k].0 == key && forall|j: int| 0 <= j < k ==> fs[j].0 != key);
    if k < i {
        assert(fs[k].0 != key);
    } else if k > i {
        assert(fs[i].0 != key);
    }
}

/// The entries of a record, as they are stored.
pub closed spec fn stored_entries(c: FonCollection) -> Seq<(String, FonValue)> {
    c.data@
}

/// A value stored in a record is smaller than the record.
pub proof fn lemma_entry_smaller(c: FonCollection, i: int)
    requires
        0 <= i < stored_entries(c).len(),
    ensures
        decreases_to!(c => stored_entries(c)[i].1),
{
    assert(decreases_to!(c => c.data));
    assert(decreases_to!(c.data => c.data@));
    assert(decreases_to!(c.data@ => c.data@[i]));
    assert(decreases_to!(c.data@[i] => c.data@[i].1));
}

impl FonCollection {
    /// An empty record.
    pub fn new() -> (r: Self)
        ensures
            r@ == Seq::<(Seq<char>, ValueModel)>::empty(),
    {
        let r = FonCollection { data: Vec::new() };
        proof {
            lemma_entries_model(r.data@);
        }
        r
    }

    /// Appends a field (an existing field with the same key stays first).
    pub fn add(&mut self, key: String, value: FonValue)
        ensures
            final(self)@ == old(self)@.push((key@, value.model())),
    {
        let ghost before = self.data@;
        self.data.push((key, value));
        proof {
            lemma_entries_model(before);
            lemma_entries_model(self.data@);
            assert(self.data@.subrange(0, self.data@.len() - 1) =~= before);
        }
    }

    /// The number of fields.
    pub fn len(&self) -> (r: usize)
        ensures
            r == self@.len(),
    {
        proof {
            lemma_entries_model(self.data@);
        }
        self.data.len()
    }

    /// True when the record has no field.
    pub fn is_empty(&self) -> (r: bool)
        ensures
            r == (self@.len() == 0),
    {
        proof {
            lemma_entries_model(self.data@);
        }
        self.data.len() == 0
    }

    /// The fields, in order.
    pub fn iter(&self) -> (r: &[(String, FonValue)])
        ensures
            r@ == stored_entries(*self),
            r@.len() == self@.len(),
            forall|i: int| 0 <= i < r@.len() ==> #[trigger] self@[i] == (r@[i].0@, r@[i].1.model()),
    {
        proof {
            lemma_entries_model(self.data@);
        }
        self.data.as_slice()
    }

    /// The position of the first field whose key is `key`.
    fn find_index(&self, key: &str) -> (r: Option<usize>)
        ensures
            r matches Some(i) ==> i < self@.len() && self@[i as int].0 == key@ && forall|j: int|
                0 <= j < i ==> #[trigger] self@[j].0 != key@,
            r is None ==> forall|j: int| 0 <= j < self@.len() ==> #[trigger] self@[j].0 != key@,
            self@.len() == self.data@.len(),
    {
        proof {
            lemma_entries_model(self.data@);
        }
        let wanted = key.to_owned();
        let mut i: usize = 0;
        while i < self.data.len()
            invariant
                i <= self.data@.len(),
                self@.len() == self.data@.len(),
                wanted@ == key@,
                forall|j: int| 0 <= j < i ==> #[trigger] self@[j].0 != key@,
                forall|j: int|
                    0 <= j < self.data@.len() ==> #[trigger] self@[j] == (
                        self.data@[j].0@,
                        self.data@[j].1.model(),
                    ),
            decreases self.data@.len() - i,
        {
            if self.data[i].0 == wanted {
                return Some(i);
            }
            i += 1;
        }
        None
    }

    /// The value of the first field whose key is `key`.
    pub fn get(&self, key: &str) -> (r: Option<&FonValue>)
        ensures
            match first_key_index(self@, key@) {
                Some(i) => r matches Some(v) && v.model() == self@[i].1,
                None => r is None,
            },
    {
        match self.find_index(key) {
            Some(i) => {
                proof {
                    lemma_first_key_index(self@, key@, i as int);
                    lemma_entries_model(self.data@);
                    assert(entries_model(self.data@)[i as int] == (
                        self.data@[i as int].0@,
                        self.data@[i as int].1.model(),
                    ));
                }
                Some(&self.data[i].1)
            },
            None => None,
        }
    }

    /// The value of the first field whose key is `key`, to change in place.
    pub fn get_mut(&mut self, key: &str) -> (r: Option<&mut FonValue>)
        ensures
            match first_key_index(old(self)@, key@) {
                Some(i) => r is Some && (*r.unwrap()).model() == old(self)@[i].1 && final(self)@
                    == old(self)@.update(i, (old(self)@[i].0, (*final(r.unwrap())).model())),
                None => r is None && final(self)@ == old(self)@,
            },
    {
        match self.find_index(key) {
            Some(i) => {
                let ghost before = self.data@;
                proof {
                    lemma_first_key_index(self@, key@, i as int);
                    lemma_entries_model(before);
                    assert(entries_model(before)[i as int] == (
                        before[i as int].0@,
                        before[i as int].1.model(),
                    ));
                }
                let entry = &mut self.data[i];
                let value = &mut entry.1;
                proof {
                    let after = before.update(i as int, (before[i as int].0, *final(value)));
                    lemma_entries_model(after);
                    assert(entries_model(after) =~= entries_model(before).update(
                        i as int,
                        (before[i as int].0@, (*final(value)).model()),
                    ));
                }
                Some(value)
            },
            None => None,
        }
    }
}

// ---------------------------------------------------------------------------
// Dumps: records keyed by id
// ---------------------------------------------------------------------------

/// Where a dump keeps its records: in a vector indexed by id while the ids
/// are exactly `0..len` (how a dump is read), in a map otherwise.
enum FonDumpStore {
    Dense(Vec<FonCollection>),
    Sparse(HashMap<u64, FonCollection>),
}

/// Records keyed by id.
pub struct FonDump {
    store: FonDumpStore,
}

/// The records of a store, by id.
closed spec fn store_model(s: FonDumpStore) -> Map<u64, Seq<(Seq<char>, ValueModel)>> {
    match s {
        FonDumpStore::Dense(v) => Map::new(|id: u64| (id as int) < v@.len(), |id: u64| v@[id as int]@),
        FonDumpStore::Sparse(m) => Map::new(|id: u64| m@.contains_key(id), |id: u64| m@[id]@),
    }
}

impl View for FonDump {
    type V = Map<u64, Seq<(Seq<char>, ValueModel)>>;

    closed spec fn view(&self) -> Map<u64, Seq<(Seq<char>, ValueModel)>> {
        store_model(self.store)
    }
}

/// The records of a vector, keyed by position.
pub open spec fn dense_model(records: Seq<FonCollection>) -> Map<u64, Seq<(Seq<char>, ValueModel)>> {
    Map::new(|id: u64| (id as int) < records.len(), |id: u64| records[id as int]@)
}

/// Moves the records of a vector into a map keyed by their position.
fn dense_to_map(records: Vec<FonCollection>) -> (m: HashMap<u64, FonCollection>)
    ensures
        forall|id: u64| #[trigger] m@.contains_key(id) <==> (id as int) < records@.len(),
        forall|id: u64| (id as int) < records@.len() ==> #[trigger] m@[id] == records@[id as int],
{
    broadcast use vstd::std_specs::hash::group_hash_axioms;

    let ghost orig = records@;
    let mut v = records;
    let mut m: HashMap<u64, FonCollection> = HashMap::with_capacity(v.len());
    while v.len() > 0
        invariant
            v@.len() <= orig.len(),
            v@ == orig.subrange(0, v@.len() as int),
            forall|id: u64|
                #[trigger] m@.contains_key(id) <==> v@.len() <= (id as int) < orig.len(),
            forall|id: u64| v@.len() <= (id as int) < orig.len() ==> #[trigger] m@[id] == orig[id as int],
        decreases v@.len(),
    {
        let c = v.pop().unwrap();
        let id = v.len() as u64;
        m.insert(id, c);
        proof {
            assert(v@ =~= orig.subrange(0, v@.len() as int));
        }
    }
    m
}

impl FonDump {
    /// Whether the records are held in a sequence, record `i` under id `i`
    /// (as a dump read from text is).
    pub closed spec fn is_dense(&self) -> bool {
        self.store is Dense
    }

    /// An empty dump.
    pub fn new() -> (r: Self)
        ensures
            r@ == Map::<u64, Seq<(Seq<char>, ValueModel)>>::empty(),
    {
        let r = FonDump { store: FonDumpStore::Sparse(HashMap::new()) };
        proof {
            assert(r@ =~= Map::<u64, Seq<(Seq<char>, ValueModel)>>::empty());
        }
        r
    }

    /// An empty dump with room for `capacity` records.
    pub fn with_capacity(capacity: usize) -> (r: Self)
        ensures
            r@ == Map::<u64, Seq<(Seq<char>, ValueModel)>>::empty(),
    {
        let r = FonDump { store: FonDumpStore::Sparse(HashMap::with_capacity(capacity)) };
        proof {
            assert(r@ =~= Map::<u64, Seq<(Seq<char>, ValueModel)>>::empty());
        }
        r
    }

    /// A dump of records keyed by their position (`0..len`).
    pub fn from_records(records: Vec<FonCollection>) -> (r: Self)
        ensures
            r@ == dense_model(records@),
            r.is_dense(),
    {
        let r = FonDump { store: FonDumpStore::Dense(records) };
        proof {
            assert(r@ =~= dense_model(records@));
        }
        r
    }

    /// Adds (or replaces) the record with id `id`.
    pub fn add(&mut self, id: u64, collection: FonCollection)
        ensures
            final(self)@ == old(self)@.insert(id, collection@),
            old(self).is_dense() && id == old(self)@.dom().len() ==> final(self).is_dense(),
    {
        broadcast use vstd::std_specs::hash::group_hash_axioms;
        broadcast use vstd::set_lib::range_set_properties;

        let ghost before = self@;
        let ghost cm = collection@;
        let mut store = FonDumpStore::Sparse(HashMap::new());
        std::mem::swap(&mut self.store, &mut store);
        let next = match store {
            FonDumpStore::Sparse(mut m) => {
                m.insert(id, collection);
                FonDumpStore::Sparse(m)
            },
            FonDumpStore::Dense(mut v) => {
                proof {
                    assert(before.dom() =~= Set::<u64>::range(0, v.len() as u64));
                }
                if id == v.len() as u64 {
                    v.push(collection);
                    FonDumpStore::Dense(v)
                } else {
                    let mut m = dense_to_map(v);
                    m.insert(id, collection);
                    FonDumpStore::Sparse(m)
                }
            },
        };
        self.store = next;
        proof {
            assert(self@ =~= before.insert(id, cm));
        }
    }

    /// The record with id `id`.
    pub fn get(&self, id: u64) -> (r: Option<&FonCollection>)
        ensures
            match r {
                Some(c) => self@.contains_key(id) && c@ == self@[id],
                None => !self@.contains_key(id),
            },
    {
        broadcast use vstd::std_specs::hash::group_hash_axioms;

        match &self.store {
            FonDumpStore::Dense(v) => {
                if id < v.len() as u64 {
                    Some(&v[id as usize])
                } else {
                    None
                }
            },
            FonDumpStore::Sparse(m) => m.get(&id),
        }
    }

    /// The record with id `id`, to change in place.
    pub fn get_mut(&mut self, id: u64) -> (r: Option<&mut FonCollection>)
        ensures
            match r {
                Some(c) => old(self)@.contains_key(id) && (*c)@ == old(self)@[id]
                    && final(self)@ == old(self)@.insert(id, (*final(r.unwrap()))@),
                None => !old(self)@.contains_key(id) && final(self)@ == old(self)@,
            },
    {
        broadcast use vstd::std_specs::hash::group_hash_axioms;

        match &mut self.store {
            FonDumpStore::Dense(v) => {
                if id < v.len() as u64 {
                    let ghost before = v@;
                    let c = &mut v[id as usize];
                    proof {
                        assert(dense_model(before.update(id as int, *final(c))) =~= dense_model(
                            before,
                        ).insert(id, (*final(c))@));
                    }
                    Some(c)
                } else {
                    None
                }
            },
            FonDumpStore::Sparse(m) => map_get_mut(m, id),
        }
    }

    /// The number of records.
    pub fn len(&self) -> (r: usize)
        ensures
            r == self@.dom().len(),
    {
        broadcast use vstd::std_specs::hash::group_hash_axioms;
        broadcast use vstd::set_lib::range_set_properties;

        match &self.store {
            FonDumpStore::Dense(v) => {
                proof {
                    assert(self@.dom() =~= Set::<u64>::range(0, v.len() as u64));
                }
                v.len()
            },
            FonDumpStore::Sparse(m) => {
                proof {
                    assert(self@.dom() =~= m@.dom());
                }
                m.len()
            },
        }
    }

    /// The records with their ids, each id once: in id order when the dump
    /// is dense, in no particular order otherwise.
    pub fn iter(&self) -> (r: Vec<(u64, &FonCollection)>)
        ensures
            self.is_dense() ==> forall|i: int| 0 <= i < r@.len() ==> #[trigger] r@[i].0 == i,
            r@.len() == self@.dom().len(),
            forall|i: int|
                0 <= i < r@.len() ==> self@.contains_key(#[trigger] r@[i].0) && r@[i].1@
                    == self@[r@[i].0],
            forall|id: u64|
                #[trigger] self@.contains_key(id) ==> exists|i: int|
                    0 <= i < r@.len() && #[trigger] r@[i].0 == id,
            forall|i: int, j: int| 0 <= i < j < r@.len() ==> r@[i].0 != r@[j].0,
    {
        broadcast use vstd::std_specs::hash::group_hash_axioms;

        let n = self.len();
        let mut out: Vec<(u64, &FonCollection)> = Vec::new();
        match &self.store {
            FonDumpStore::Dense(v) => {
                let mut i: usize = 0;
                while i < v.len()
                    invariant
                        i <= v@.len(),
                        self.store == FonDumpStore::Dense(*v),
                        out@.len() == i,
                        forall|j: int| 0 <= j < i ==> (#[trigger] out@[j]).0 == j && out@[j].1 == v@[j],
                    decreases v@.len() - i,
                {
                    out.push((i as u64, &v[i]));
                    i += 1;
                }
                proof {
                    broadcast use vstd::set_lib::range_set_properties;

                    assert(self@.dom() =~= Set::<u64>::range(0, v.len() as u64));
                    assert forall|id: u64| #[trigger] self@.contains_key(id) implies exists|i: int|
                        0 <= i < out@.len() && #[trigger] out@[i].0 == id by {
                        assert(out@[id as int].0 == id);
                    }
                }
            },
            FonDumpStore::Sparse(m) => {
                let ghost pairs = m.iter().remaining();
                for pair in it: m.iter()
                    invariant
                        self.store == FonDumpStore::Sparse(*m),
                        it.seq() == pairs,
                        pairs.len() == m@.dom().len(),
                        pairs.no_duplicates(),
                        out@.len() == it.index(),
                        forall|j: int|
                            0 <= j < it.index() ==> (#[trigger] out@[j]).0 == *pairs[j].0
                                && out@[j].1 == pairs[j].1,
                {
                    out.push((*pair.0, pair.1));
                }
                proof {
                    assert(out@.len() == pairs.len());
                    assert(self@.dom() =~= m@.dom());
                    assert forall|id: u64| #[trigger] self@.contains_key(id) implies exists|i: int|
                        0 <= i < out@.len() && #[trigger] out@[i].0 == id by {
                        assert(m@.contains_key(id));
                        assert(pairs.contains((&id, &m@[id])));
                        let j = choose|j: int| 0 <= j < pairs.len() && pairs[j] == (&id, &m@[id]);
                        assert(out@[j].0 == id);
                    }
                    assert forall|i: int, j: int| 0 <= i < j < out@.len() implies out@[i].0
                        != out@[j].0 by {
                        if out@[i].0 == out@[j].0 {
                            let k = out@[i].0;
                            assert(m@.contains_key(*pairs[i].0) && m@[*pairs[i].0] == *pairs[i].1);
                            assert(m@.contains_key(*pairs[j].0) && m@[*pairs[j].0] == *pairs[j].1);
                            assert(pairs[i] == pairs[j]);
                        }
                    }
                }
            },
        }
        out
    }

    /// True when the dump has no record.
    pub fn is_empty(&self) -> (r: bool)
        ensures
            r == (self@.dom().len() == 0),
    {
        self.len() == 0
    }
}

/// `HashMap::get_mut`: the value stored under the key, to change in place.
/// Its contract: when the key is present, the value it is stored under, and
/// the map afterwards holds whatever the caller left there; when absent,
/// nothing, and the map is unchanged.
#[verifier::external_body]
fn map_get_mut(m: &mut HashMap<u64, FonCollection>, id: u64) -> (r: Option<&mut FonCollection>)
    ensures
        match r {
            Some(c) => old(m)@.contains_key(id) && *c == old(m)@[id] && final(m)@ == old(m)@.insert(
                id,
                *final(r.unwrap()),
            ),
            None => !old(m)@.contains_key(id) && final(m)@ == old(m)@,
        },
{
    m.get_mut(&id)
}

// ---------------------------------------------------------------------------
// Laws
// ---------------------------------------------------------------------------

/// What the position of the first field with a key is.
proof fn lemma_first_key_index_facts(fs: Seq<(Seq<char>, ValueModel)>, key: Seq<char>)
    ensures
        first_key_index(fs, key) matches Some(i) ==> 0 <= i < fs.len() && fs[i].0 == key
            && forall|j: int| 0 <= j < i ==> #[trigger] fs[j].0 != key,
        first_key_index(fs, key) is None ==> forall|j: int|
            0 <= j < fs.len() ==> #[trigger] fs[j].0 != key,
{
    if exists|i: int| 0 <= i < fs.len() && #[trigger] fs[i].0 == key {
        let i0 = choose|i: int| 0 <= i < fs.len() && #[trigger] fs[i].0 == key;
        lemma_least_key_index(fs, key, i0);
    }
}

/// A key that occurs has a first occurrence.
proof fn lemma_least_key_index(fs: Seq<(Seq<char>, ValueModel)>, key: Seq<char>, i: int)
    requires
        0 <= i < fs.len(),
        fs[i].0 == key,
    ensures
        exists|k: int|
            0 <= k < fs.len() && #[trigger] fs[k].0 == key && forall|j: int|
                0 <= j < k ==> fs[j].0 != key,
    decreases i,
{
    if exists|j: int| 0 <= j < i && #[trigger] fs[j].0 == key {
        let j = choose|j: int| 0 <= j < i && #[trigger] fs[j].0 == key;
        lemma_least_key_index(fs, key, j);
    } else {
        assert(forall|j: int| 0 <= j < i ==> fs[j].0 != key);
    }
}

/// Adding a field under a key that the record does not have yet: looking
/// the key up finds the added value. Adding one under a key it has already:
/// looking it up still finds the earlier field.
pub proof fn lemma_add_then_get(
    fs: Seq<(Seq<char>, ValueModel)>,
    key: Seq<char>,
    v: ValueModel,
)
    ensures
        first_key_index(fs, key) is None ==> first_key_index(fs.push((key, v)), key) == Some(
            fs.len() as int,
        ) && fs.push((key, v))[fs.len() as int].1 == v,
        first_key_index(fs, key) matches Some(i) ==> first_key_index(fs.push((key, v)), key) == Some(
            i,
        ),
{
    let all = fs.push((key, v));
    lemma_first_key_index_facts(fs, key);
    if let Some(i) = first_key_index(fs, key) {
        assert forall|j: int| 0 <= j < i implies all[j].0 != key by {
            assert(all[j] == fs[j]);
        }
        assert(all[i] == fs[i]);
        lemma_first_key_index(all, key, i);
    } else {
        assert forall|j: int| 0 <= j < fs.len() implies all[j].0 != key by {
            assert(all[j] == fs[j]);
        }
        lemma_first_key_index(all, key, fs.len() as int);
    }
}

/// A dump's records are finitely many.
pub proof fn lemma_dump_finite(d: &FonDump)
    ensures
        d@.dom().finite(),
{
    broadcast use vstd::std_specs::hash::group_hash_axioms;
    broadcast use vstd::set_lib::range_set_properties;

    match &d.store {
        FonDumpStore::Dense(v) => {
            assert(d@.dom() =~= Set::<u64>::range(0, v.len() as u64));
        },
        FonDumpStore::Sparse(m) => {
            assert(d@.dom() =~= m@.dom());
        },
    }
}

/// Adding a record to a dump: looking its id up finds it, other ids keep
/// their records, and the count grows by one when the id is new.
pub proof fn lemma_dump_add_then_get(
    d: Map<u64, Seq<(Seq<char>, ValueModel)>>,
    id: u64,
    c: Seq<(Seq<char>, ValueModel)>,
    other: u64,
)
    requires
        d.dom().finite(),
    ensures
        d.insert(id, c).contains_key(id) && d.insert(id, c)[id] == c,
        other != id ==> d.insert(id, c).contains_key(other) == d.contains_key(other),
        other != id && d.contains_key(other) ==> d.insert(id, c)[other] == d[other],
        d.insert(id, c).dom().len() == if d.contains_key(id) {
            d.dom().len()
        } else {
            d.dom().len() + 1
        },
{
    if d.contains_key(id) {
        assert(d.insert(id, c).dom() =~= d.dom());
    }
}

/// A dump made of records: record `i` is found under id `i`, and there are
/// as many ids as records.
pub proof fn lemma_from_records_get(records: Seq<FonCollection>, id: u64)
    ensures
        dense_model(records).contains_key(id) <==> (id as int) < records.len(),
        (id as int) < records.len() ==> dense_model(records)[id] == records[id as int]@,
        records.len() <= u64::MAX ==> dense_model(records).dom().len() == records.len(),
{
    broadcast use vstd::set_lib::range_set_properties;

    if records.len() <= u64::MAX {
        assert(dense_model(records).dom() =~= Set::<u64>::range(0, records.len() as u64));
    }
}

} // verus!

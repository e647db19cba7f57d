//! Writing records as FON text.
//!
//! Every writer appends to a byte buffer and states exactly which bytes it
//! appended, in terms of the format's writing functions (`write_fields`,
//! `write_value`, ...).

use rayon::iter::{IntoParallelRefIterator, ParallelIterator};
use vstd::prelude::*;
use vstd::slice::{slice_subrange, slice_to_vec};
use vstd::utf8::*;

use crate::format::{
    bool_text, decimal, decimal_digits, escape, escape_byte, hex_digit, join_items,
    lemma_escape_concat, lemma_fields_push, lemma_fields_valid, lemma_join_push, lemma_objects_push,
    lines_text, quoted, raw_text, write_field, write_fields, write_objects, write_value,
};
use crate::raw_data::{lemma_z85_encode_shape, z85_encode, RawData};
use crate::text::{lemma_ascii_valid_utf8, lemma_decode_encode, string_from_utf8};
use crate::types::{
    lemma_entry_smaller, lemma_objects_model, objects_model, stored_entries, tag_of, FonCollection,
    FonDump, FonValue, ValueModel,
};

verus! {

/// Appends bytes to the buffer.
fn push_bytes(out: &mut Vec<u8>, b: &[u8])
    ensures
        final(out)@ == old(out)@ + b@,
{
    let ghost start = out@;
    let mut i: usize = 0;
    while i < b.len()
        invariant
            i <= b@.len(),
            out@ == start + b@.subrange(0, i as int),
        decreases b@.len() - i,
    {
        out.push(b[i]);
        proof {
            assert(b@.subrange(0, i + 1) =~= b@.subrange(0, i as int).push(b@[i as int]));
        }
        i += 1;
    }
    proof {
        assert(b@.subrange(0, b@.len() as int) =~= b@);
    }
}

/// Appends the decimal digits of a natural number.
fn push_digits(out: &mut Vec<u8>, n: u64)
    ensures
        final(out)@ == old(out)@ + decimal_digits(n as nat),
    decreases n,
{
    let ghost start = out@;
    if n >= 10 {
        push_digits(out, n / 10);
    }
    out.push((48 + n % 10) as u8);
    proof {
        if n >= 10 {
            assert(out@ =~= start + decimal_digits((n / 10) as nat).push((48 + n % 10) as u8));
        } else {
            assert(out@ =~= start + seq![(48 + n) as u8]);
        }
    }
}

/// Appends the decimal text of an integer whose magnitude fits in 64 bits.
fn push_int(out: &mut Vec<u8>, v: i128)
    requires
        -18446744073709551616 < v < 18446744073709551616,
    ensures
        final(out)@ == old(out)@ + decimal(v as int),
{
    let ghost start = out@;
    if v < 0 {
        out.push(45u8);
        push_digits(out, (-v) as u64);
        proof {
            assert(out@ =~= start + (seq![45u8] + decimal_digits((-v) as nat)));
        }
    } else {
        push_digits(out, v as u64);
    }
}

/// Integers that are written in decimal.
pub trait IntText: Copy {
    /// The number a value stands for.
    spec fn text_value(v: Self) -> int;

    /// The value, widened.
    fn widened(&self) -> (r: i128)
        ensures
            r == Self::text_value(*self),
            -18446744073709551616 < r < 18446744073709551616,
    ;
}

impl IntText for u8 {
    open spec fn text_value(v: u8) -> int {
        v as int
    }

    fn widened(&self) -> (r: i128) {
        *self as i128
    }
}

impl IntText for i16 {
    open spec fn text_value(v: i16) -> int {
        v as int
    }

    fn widened(&self) -> (r: i128) {
        *self as i128
    }
}

impl IntText for i32 {
    open spec fn text_value(v: i32) -> int {
        v as int
    }

    fn widened(&self) -> (r: i128) {
        *self as i128
    }
}

impl IntText for u32 {
    open spec fn text_value(v: u32) -> int {
        v as int
    }

    fn widened(&self) -> (r: i128) {
        *self as i128
    }
}

impl IntText for i64 {
    open spec fn text_value(v: i64) -> int {
        v as int
    }

    fn widened(&self) -> (r: i128) {
        *self as i128
    }
}

impl IntText for u64 {
    open spec fn text_value(v: u64) -> int {
        v as int
    }

    fn widened(&self) -> (r: i128) {
        *self as i128
    }
}

/// The decimal texts of the items of an integer array.
pub open spec fn int_items<T: IntText>(xs: Seq<T>) -> Seq<Seq<u8>> {
    xs.map_values(|x: T| decimal(T::text_value(x)))
}

/// Appends an integer array: `[`, the items in decimal separated by commas,
/// `]`.
fn serialize_int_array<T: IntText>(out: &mut Vec<u8>, arr: &[T])
    ensures
        final(out)@ == old(out)@ + seq![91u8] + join_items(int_items(arr@)) + seq![93u8],
{
    let ghost start = out@;
    out.push(91u8);
    let mut i: usize = 0;
    while i < arr.len()
        invariant
            i <= arr@.len(),
            out@ == start + seq![91u8] + join_items(int_items(arr@.subrange(0, i as int))),
        decreases arr@.len() - i,
    {
        let ghost before = out@;
        if i > 0 {
            out.push(44u8);
        }
        push_int(out, arr[i].widened());
        proof {
            let prev = int_items(arr@.subrange(0, i as int));
            let x = decimal(T::text_value(arr@[i as int]));
            assert(int_items(arr@.subrange(0, i + 1)) =~= prev.push(x));
            lemma_join_push(prev, x);
            if i > 0 {
                assert(out@ =~= before + seq![44u8] + x);
            } else {
                assert(prev.len() == 0);
                assert(out@ =~= before + x);
            }
        }
        i += 1;
    }
    out.push(93u8);
    proof {
        assert(arr@.subrange(0, arr@.len() as int) =~= arr@);
    }
}

/// The texts of the items of a floating-point array.
pub open spec fn text_items(ts: Seq<String>) -> Seq<Seq<u8>> {
    ts.map_values(|t: String| encode_utf8(t@))
}

/// Appends a floating-point array: `[`, the items' text separated by
/// commas, `]`.
fn serialize_float_array(out: &mut Vec<u8>, arr: &[String])
    ensures
        final(out)@ == old(out)@ + seq![91u8] + join_items(text_items(arr@)) + seq![93u8],
{
    let ghost start = out@;
    out.push(91u8);
    let mut i: usize = 0;
    while i < arr.len()
        invariant
            i <= arr@.len(),
            out@ == start + seq![91u8] + join_items(text_items(arr@.subrange(0, i as int))),
        decreases arr@.len() - i,
    {
        let ghost before = out@;
        if i > 0 {
            out.push(44u8);
        }
        push_bytes(out, arr[i].as_str().as_bytes());
        proof {
            let prev = text_items(arr@.subrange(0, i as int));
            let x = encode_utf8(arr@[i as int]@);
            assert(text_items(arr@.subrange(0, i + 1)) =~= prev.push(x));
            lemma_join_push(prev, x);
            if i > 0 {
                assert(out@ =~= before + seq![44u8] + x);
            } else {
                assert(prev.len() == 0);
                assert(out@ =~= before + x);
            }
        }
        i += 1;
    }
    out.push(93u8);
    proof {
        assert(arr@.subrange(0, arr@.len() as int) =~= arr@);
    }
}

/// Appends a boolean array: `[`, `1` or `0` for each item separated by
/// commas, `]`.
fn serialize_bool_array(out: &mut Vec<u8>, arr: &[bool])
    ensures
        final(out)@ == old(out)@ + seq![91u8] + join_items(
            arr@.map_values(|b: bool| bool_text(b)),
        ) + seq![93u8],
{
    let ghost start = out@;
    out.push(91u8);
    let mut i: usize = 0;
    while i < arr.len()
        invariant
            i <= arr@.len(),
            out@ == start + seq![91u8] + join_items(
                arr@.subrange(0, i as int).map_values(|b: bool| bool_text(b)),
            ),
        decreases arr@.len() - i,
    {
        let ghost before = out@;
        if i > 0 {
            out.push(44u8);
        }
        out.push(if arr[i] { 49u8 } else { 48u8 });
        proof {
            let prev = arr@.subrange(0, i as int).map_values(|b: bool| bool_text(b));
            let x = bool_text(arr@[i as int]);
            assert(arr@.subrange(0, i + 1).map_values(|b: bool| bool_text(b)) =~= prev.push(x));
            lemma_join_push(prev, x);
            if i > 0 {
                assert(out@ =~= before + seq![44u8] + x);
            } else {
                assert(prev.len() == 0);
                assert(out@ =~= before + x);
            }
        }
        i += 1;
    }
    out.push(93u8);
    proof {
        assert(arr@.subrange(0, arr@.len() as int) =~= arr@);
    }
}

/// Appends the escape of one byte of a string.
fn push_escaped_byte(out: &mut Vec<u8>, c: u8)
    ensures
        final(out)@ == old(out)@ + escape_byte(c),
{
    let ghost start = out@;
    if c == 34 {
        out.push(92u8);
        out.push(34u8);
    } else if c == 92 {
        out.push(92u8);
        out.push(92u8);
    } else if c == 10 {
        out.push(92u8);
        out.push(110u8);
    } else if c == 13 {
        out.push(92u8);
        out.push(114u8);
    } else if c == 9 {
        out.push(92u8);
        out.push(116u8);
    } else if c == 8 {
        out.push(92u8);
        out.push(98u8);
    } else if c == 12 {
        out.push(92u8);
        out.push(102u8);
    } else if c < 32 {
        let hi = c / 16;
        let lo = c % 16;
        out.push(92u8);
        out.push(117u8);
        out.push(48u8);
        out.push(48u8);
        out.push(48 + hi);
        out.push(if lo < 10 { 48 + lo } else { 55 + lo });
        proof {
            assert(hex_digit(c as int / 16) == 48 + hi);
            assert(hex_digit(c as int % 16) == (if lo < 10 { 48 + lo } else { 55 + lo }));
        }
    } else {
        out.push(c);
    }
    proof {
        assert(out@ =~= start + escape_byte(c));
    }
}

/// Appends a string between double quotes, escaped.
fn serialize_string(out: &mut Vec<u8>, s: &str)
    ensures
        final(out)@ == old(out)@ + quoted(s@),
{
    let ghost start = out@;
    let b = s.as_bytes();
    out.push(34u8);
    let mut i: usize = 0;
    while i < b.len()
        invariant
            i <= b@.len(),
            out@ == start + seq![34u8] + escape(b@.subrange(0, i as int)),
        decreases b@.len() - i,
    {
        let ghost before = out@;
        push_escaped_byte(out, b[i]);
        proof {
            let head = b@.subrange(0, i as int);
            let one = seq![b@[i as int]];
            assert(b@.subrange(0, i + 1) =~= head + one);
            lemma_escape_concat(head, one);
            assert(one.subrange(1, 1) =~= Seq::<u8>::empty());
            assert(escape(one) == escape_byte(one[0]) + escape(one.subrange(1, 1)));
            assert(escape(Seq::<u8>::empty()) == Seq::<u8>::empty());
            assert(escape(one) =~= escape_byte(b@[i as int]));
        }
        i += 1;
    }
    out.push(34u8);
    proof {
        assert(b@.subrange(0, b@.len() as int) =~= b@);
    }
}

/// Appends a string array: `[`, the quoted items separated by commas, `]`.
fn serialize_string_array(out: &mut Vec<u8>, arr: &[String])
    ensures
        final(out)@ == old(out)@ + seq![91u8] + join_items(
            arr@.map_values(|t: String| t@).map_values(|s: Seq<char>| quoted(s)),
        ) + seq![93u8],
{
    let ghost start = out@;
    out.push(91u8);
    let mut i: usize = 0;
    while i < arr.len()
        invariant
            i <= arr@.len(),
            out@ == start + seq![91u8] + join_items(
                arr@.subrange(0, i as int).map_values(|t: String| quoted(t@)),
            ),
        decreases arr@.len() - i,
    {
        let ghost before = out@;
        if i > 0 {
            out.push(44u8);
        }
        serialize_string(out, arr[i].as_str());
        proof {
            let prev = arr@.subrange(0, i as int).map_values(|t: String| quoted(t@));
            let x = quoted(arr@[i as int]@);
            assert(arr@.subrange(0, i + 1).map_values(|t: String| quoted(t@)) =~= prev.push(x));
            lemma_join_push(prev, x);
            if i > 0 {
                assert(out@ =~= before + seq![44u8] + x);
            } else {
                assert(prev.len() == 0);
                assert(out@ =~= before + x);
            }
        }
        i += 1;
    }
    out.push(93u8);
    proof {
        assert(arr@.subrange(0, arr@.len() as int) =~= arr@);
        assert(arr@.map_values(|t: String| t@).map_values(|s: Seq<char>| quoted(s))
            =~= arr@.map_values(|t: String| quoted(t@)));
    }
}

/// Appends a raw payload between double quotes: its Z85 text, computed from
/// a packed copy when it holds bytes.
fn serialize_raw(out: &mut Vec<u8>, raw: &RawData)
    ensures
        final(out)@ == old(out)@ + seq![34u8] + raw_text(raw@) + seq![34u8],
{
    let ghost start = out@;
    out.push(34u8);
    if raw.is_packed() {
        push_bytes(out, raw.encoded().as_bytes());
    } else if raw.is_unpacked() {
        let mut tmp = RawData::from_bytes(slice_to_vec(raw.data()));
        let packed = tmp.pack();
        push_bytes(out, packed.encoded().as_bytes());
        proof {
            let e = z85_encode(raw@.data);
            lemma_z85_encode_shape(raw@.data);
            lemma_ascii_valid_utf8(e);
            lemma_decode_encode(e);
        }
    }
    out.push(34u8);
    proof {
        assert(out@ =~= start + seq![34u8] + raw_text(raw@) + seq![34u8]);
    }
}

/// Appends a value as its text (see `write_value`).
pub fn serialize_value(out: &mut Vec<u8>, value: &FonValue)
    ensures
        final(out)@ == old(out)@ + write_value(value.model()),
    decreases value,
{
    let ghost start = out@;
    match value {
        FonValue::Byte(v) => push_int(out, *v as i128),
        FonValue::Short(v) => push_int(out, *v as i128),
        FonValue::Int(v) => push_int(out, *v as i128),
        FonValue::UInt(v) => push_int(out, *v as i128),
        FonValue::Long(v) => push_int(out, *v as i128),
        FonValue::ULong(v) => push_int(out, *v as i128),
        FonValue::Float(t) => push_bytes(out, t.as_str().as_bytes()),
        FonValue::Double(t) => push_bytes(out, t.as_str().as_bytes()),
        FonValue::Bool(b) => {
            out.push(if *b { 49u8 } else { 48u8 });
            proof {
                assert(out@ =~= start + bool_text(*b));
            }
        },
        FonValue::String(s) => serialize_string(out, s.as_str()),
        FonValue::Raw(raw) => serialize_raw(out, raw),
        FonValue::Object(child) => {
            out.push(123u8);
            serialize_body(out, child);
            out.push(125u8);
        },
        FonValue::ByteArray(arr) => {
            serialize_int_array(out, arr.as_slice());
            proof {
                assert(int_items(arr@) =~= arr@.map_values(|x: u8| x as int).map_values(
                    |x: int| decimal(x),
                ));
            }
        },
        FonValue::ShortArray(arr) => {
            serialize_int_array(out, arr.as_slice());
            proof {
                assert(int_items(arr@) =~= arr@.map_values(|x: i16| x as int).map_values(
                    |x: int| decimal(x),
                ));
            }
        },
        FonValue::IntArray(arr) => {
            serialize_int_array(out, arr.as_slice());
            proof {
                assert(int_items(arr@) =~= arr@.map_values(|x: i32| x as int).map_values(
                    |x: int| decimal(x),
                ));
            }
        },
        FonValue::UIntArray(arr) => {
            serialize_int_array(out, arr.as_slice());
            proof {
                assert(int_items(arr@) =~= arr@.map_values(|x: u32| x as int).map_values(
                    |x: int| decimal(x),
                ));
            }
        },
        FonValue::LongArray(arr) => {
            serialize_int_array(out, arr.as_slice());
            proof {
                assert(int_items(arr@) =~= arr@.map_values(|x: i64| x as int).map_values(
                    |x: int| decimal(x),
                ));
            }
        },
        FonValue::ULongArray(arr) => {
            serialize_int_array(out, arr.as_slice());
            proof {
                assert(int_items(arr@) =~= arr@.map_values(|x: u64| x as int).map_values(
                    |x: int| decimal(x),
                ));
            }
        },
        FonValue::FloatArray(arr) => {
            serialize_float_array(out, arr.as_slice());
            proof {
                assert(text_items(arr@) =~= arr@.map_values(|t: String| t@).map_values(
                    |t: Seq<char>| encode_utf8(t),
                ));
            }
        },
        FonValue::DoubleArray(arr) => {
            serialize_float_array(out, arr.as_slice());
            proof {
                assert(text_items(arr@) =~= arr@.map_values(|t: String| t@).map_values(
                    |t: Seq<char>| encode_utf8(t),
                ));
            }
        },
        FonValue::BoolArray(arr) => serialize_bool_array(out, arr.as_slice()),
        FonValue::StringArray(arr) => serialize_string_array(out, arr.as_slice()),
        FonValue::ObjectArray(arr) => {
            out.push(91u8);
            proof {
                lemma_objects_model(arr@.subrange(0, 0));
                assert(out@ =~= start + seq![91u8] + write_objects(objects_model(arr@.subrange(0, 0))));
            }
            let mut i: usize = 0;
            while i < arr.len()
                invariant
                    i <= arr@.len(),
                    *value == FonValue::ObjectArray(*arr),
                    out@ == start + seq![91u8] + write_objects(
                        objects_model(arr@.subrange(0, i as int)),
                    ),
                decreases arr@.len() - i,
            {
                let ghost before = out@;
                if i > 0 {
                    out.push(44u8);
                }
                out.push(123u8);
                proof {
                    assert(decreases_to!(*value => value->ObjectArray_0));
                    assert(decreases_to!(value->ObjectArray_0 => value->ObjectArray_0@));
                    assert(decreases_to!(value->ObjectArray_0@ => value->ObjectArray_0@[i as int]));
                }
                serialize_body(out, &arr[i]);
                out.push(125u8);
                proof {
                    let prev = arr@.subrange(0, i as int);
                    let o = (*arr@[i as int])@;
                    lemma_objects_model(prev);
                    lemma_objects_model(arr@.subrange(0, i + 1));
                    assert(objects_model(arr@.subrange(0, i + 1)) =~= objects_model(prev).push(o));
                    lemma_objects_push(objects_model(prev), o);
                    if i > 0 {
                        assert(out@ =~= before + seq![44u8, 123u8] + write_fields(o) + seq![125u8]);
                    } else {
                        assert(objects_model(prev).len() == 0);
                        assert(out@ =~= before + seq![123u8] + write_fields(o) + seq![125u8]);
                    }
                }
                i += 1;
            }
            out.push(93u8);
            proof {
                assert(arr@.subrange(0, arr@.len() as int) =~= arr@);
            }
        },
    }
}

/// Appends the fields of a record (see `write_fields`).
fn serialize_body(out: &mut Vec<u8>, collection: &FonCollection)
    ensures
        final(out)@ == old(out)@ + write_fields(collection@),
    decreases collection,
{
    let ghost start = out@;
    let entries = collection.iter();
    let mut i: usize = 0;
    while i < entries.len()
        invariant
            i <= entries@.len(),
            entries@ == stored_entries(*collection),
            entries@.len() == collection@.len(),
            forall|j: int|
                0 <= j < entries@.len() ==> #[trigger] collection@[j] == (
                    entries@[j].0@,
                    entries@[j].1.model(),
                ),
            out@ == start + write_fields(collection@.subrange(0, i as int)),
        decreases entries@.len() - i,
    {
        let ghost before = out@;
        if i > 0 {
            out.push(44u8);
        }
        let (key, value) = &entries[i];
        push_bytes(out, key.as_str().as_bytes());
        out.push(61u8);
        out.push(value.type_char());
        out.push(58u8);
        proof {
            lemma_entry_smaller(*collection, i as int);
        }
        serialize_value(out, value);
        proof {
            let prev = collection@.subrange(0, i as int);
            let f = collection@[i as int];
            assert(collection@.subrange(0, i + 1) =~= prev.push(f));
            lemma_fields_push(prev, f);
            assert(write_field(f) == encode_utf8(f.0) + seq![61u8, tag_of(f.1), 58u8] + write_value(
                f.1,
            ));
            if i > 0 {
                assert(out@ =~= before + seq![44u8] + write_field(f));
            } else {
                assert(prev.len() == 0);
                assert(out@ =~= before + write_field(f));
            }
        }
        i += 1;
    }
    proof {
        assert(collection@.subrange(0, collection@.len() as int) =~= collection@);
    }
}

/// Writes a record as one line of FON text (without a line break).
pub fn serialize_to_string(collection: &FonCollection) -> (r: String)
    ensures
        encode_utf8(r@) == write_fields(collection@),
{
    let mut out: Vec<u8> = Vec::new();
    serialize_body(&mut out, collection);
    proof {
        lemma_fields_valid(collection@);
        assert(out@ =~= write_fields(collection@));
    }
    match string_from_utf8(out) {
        Some(s) => {
            proof {
                lemma_decode_encode(write_fields(collection@));
            }
            s
        },
        None => String::new(),
    }
}

// ---------------------------------------------------------------------------
// Dumps
// ---------------------------------------------------------------------------

/// Ids in increasing order: each id of the map, once.
pub open spec fn ids_in_order(ids: Seq<u64>, m: Map<u64, Seq<(Seq<char>, ValueModel)>>) -> bool {
    &&& forall|i: int, j: int| 0 <= i < j < ids.len() ==> ids[i] < ids[j]
    &&& forall|i: int| 0 <= i < ids.len() ==> m.contains_key(#[trigger] ids[i])
    &&& forall|id: u64| #[trigger] m.contains_key(id) ==> ids.contains(id)
}

/// The text of each record of the map, in the order of `ids`.
pub open spec fn texts_in_order(ids: Seq<u64>, m: Map<u64, Seq<(Seq<char>, ValueModel)>>) -> Seq<
    Seq<u8>,
> {
    ids.map_values(|id: u64| write_fields(m[id]))
}

/// Whether the ids come in increasing order.
fn ids_increasing(entries: &Vec<(u64, &FonCollection)>) -> (r: bool)
    ensures
        r == forall|i: int, j: int| 0 <= i < j < entries@.len() ==> entries@[i].0 < entries@[j].0,
{
    let mut k: usize = 1;
    while k < entries.len()
        invariant
            1 <= k,
            forall|a: int, b: int| 0 <= a < b < k && b < entries@.len() ==> entries@[a].0 < entries@[b].0,
        decreases entries@.len() - k,
    {
        if entries[k - 1].0 >= entries[k].0 {
            return false;
        }
        proof {
            assert forall|a: int, b: int| 0 <= a < b < k + 1 && b < entries@.len() implies entries@[a].0
                < entries@[b].0 by {
                if b == k && a < k - 1 {
                    assert(entries@[a].0 < entries@[k - 1].0);
                }
            }
        }
        k += 1;
    }
    true
}

/// Merges two runs, each in increasing order of id, that share no id.
fn merge_runs<'a>(a: &Vec<(u64, &'a FonCollection)>, b: &Vec<(u64, &'a FonCollection)>) -> (r: Vec<
    (u64, &'a FonCollection),
>)
    requires
        forall|i: int, j: int| 0 <= i < j < a@.len() ==> a@[i].0 < a@[j].0,
        forall|i: int, j: int| 0 <= i < j < b@.len() ==> b@[i].0 < b@[j].0,
        forall|i: int, j: int| 0 <= i < a@.len() && 0 <= j < b@.len() ==> a@[i].0 != b@[j].0,
    ensures
        r@.len() == a@.len() + b@.len(),
        forall|i: int, j: int| 0 <= i < j < r@.len() ==> r@[i].0 < r@[j].0,
        forall|x: (u64, &'a FonCollection)| r@.contains(x) <==> a@.contains(x) || b@.contains(x),
{
    let mut out: Vec<(u64, &'a FonCollection)> = Vec::new();
    let mut i: usize = 0;
    let mut j: usize = 0;
    proof {
        assert(a@.subrange(0, 0) =~= Seq::<(u64, &'a FonCollection)>::empty());
        assert(b@.subrange(0, 0) =~= Seq::<(u64, &'a FonCollection)>::empty());
    }
    while i < a.len() || j < b.len()
        invariant
            i <= a@.len(),
            j <= b@.len(),
            out@.len() == i + j,
            forall|p: int, q: int| 0 <= p < q < a@.len() ==> a@[p].0 < a@[q].0,
            forall|p: int, q: int| 0 <= p < q < b@.len() ==> b@[p].0 < b@[q].0,
            forall|p: int, q: int| 0 <= p < a@.len() && 0 <= q < b@.len() ==> a@[p].0 != b@[q].0,
            forall|p: int, q: int| 0 <= p < q < out@.len() ==> out@[p].0 < out@[q].0,
            forall|p: int|
                0 <= p < out@.len() ==> (i < a@.len() ==> (#[trigger] out@[p]).0 < a@[i as int].0)
                    && (j < b@.len() ==> out@[p].0 < b@[j as int].0),
            forall|x: (u64, &'a FonCollection)|
                out@.contains(x) <==> a@.subrange(0, i as int).contains(x) || b@.subrange(
                    0,
                    j as int,
                ).contains(x),
        decreases a@.len() + b@.len() - i - j,
    {
        let take_a = j >= b.len() || (i < a.len() && a[i].0 < b[j].0);
        let ghost before = out@;
        if take_a {
            let e = a[i];
            out.push(e);
            proof {
                assert(a@.subrange(0, i + 1) =~= a@.subrange(0, i as int).push(e));
                assert(out@ =~= before.push(e));
                assert forall|x: (u64, &'a FonCollection)| out@.contains(x) <==> a@.subrange(
                    0,
                    i + 1,
                ).contains(x) || b@.subrange(0, j as int).contains(x) by {
                    vstd::seq_lib::lemma_seq_contains_after_push(before, e, x);
                    vstd::seq_lib::lemma_seq_contains_after_push(a@.subrange(0, i as int), e, x);
                }
                assert forall|p: int| 0 <= p < out@.len() implies (i + 1 < a@.len() ==> (
                #[trigger] out@[p]).0 < a@[i + 1].0) && (j < b@.len() ==> out@[p].0 < b@[j as int].0) by {
                    if p < before.len() {
                        assert(out@[p] == before[p]);
                    }
                }
                assert forall|p: int, q: int| 0 <= p < q < out@.len() implies out@[p].0 < out@[q].0 by {
                    if q < before.len() {
                        assert(out@[p] == before[p] && out@[q] == before[q]);
                    } else {
                        assert(out@[p] == before[p]);
                    }
                }
            }
            i += 1;
        } else {
            let e = b[j];
            out.push(e);
            proof {
                assert(b@.subrange(0, j + 1) =~= b@.subrange(0, j as int).push(e));
                assert(out@ =~= before.push(e));
                assert forall|x: (u64, &'a FonCollection)| out@.contains(x) <==> a@.subrange(
                    0,
                    i as int,
                ).contains(x) || b@.subrange(0, j + 1).contains(x) by {
                    vstd::seq_lib::lemma_seq_contains_after_push(before, e, x);
                    vstd::seq_lib::lemma_seq_contains_after_push(b@.subrange(0, j as int), e, x);
                }
                if i < a@.len() {
                    assert(a@[i as int].0 != b@[j as int].0);
                }
                assert forall|p: int| 0 <= p < out@.len() implies (i < a@.len() ==> (
                #[trigger] out@[p]).0 < a@[i as int].0) && (j + 1 < b@.len() ==> out@[p].0 < b@[j + 1].0) by {
                    if p < before.len() {
                        assert(out@[p] == before[p]);
                    }
                }
                assert forall|p: int, q: int| 0 <= p < q < out@.len() implies out@[p].0 < out@[q].0 by {
                    if q < before.len() {
                        assert(out@[p] == before[p] && out@[q] == before[q]);
                    } else {
                        assert(out@[p] == before[p]);
                    }
                }
            }
            j += 1;
        }
    }
    proof {
        assert(a@.subrange(0, a@.len() as int) =~= a@);
        assert(b@.subrange(0, b@.len() as int) =~= b@);
    }
    out
}

/// Sorts records by id (the ids are distinct): a merge sort.
fn sort_run<'a>(s: &[(u64, &'a FonCollection)]) -> (r: Vec<(u64, &'a FonCollection)>)
    requires
        forall|i: int, j: int| 0 <= i < j < s@.len() ==> s@[i].0 != s@[j].0,
    ensures
        r@.len() == s@.len(),
        forall|i: int, j: int| 0 <= i < j < r@.len() ==> r@[i].0 < r@[j].0,
        forall|x: (u64, &'a FonCollection)| r@.contains(x) <==> s@.contains(x),
    decreases s@.len(),
{
    if s.len() <= 1 {
        return slice_to_vec(s);
    }
    let mid = s.len() / 2;
    let left = slice_subrange(s, 0, mid);
    let right = slice_subrange(s, mid, s.len());
    proof {
        assert forall|i: int, j: int| 0 <= i < j < right@.len() implies right@[i].0 != right@[j].0 by {
            assert(right@[i] == s@[mid + i] && right@[j] == s@[mid + j]);
        }
    }
    let a = sort_run(left);
    let b = sort_run(right);
    proof {
        assert forall|i: int, j: int| 0 <= i < a@.len() && 0 <= j < b@.len() implies a@[i].0
            != b@[j].0 by {
            assert(a@.contains(a@[i]));
            assert(b@.contains(b@[j]));
            let p = choose|p: int| 0 <= p < left@.len() && left@[p] == a@[i];
            let q = choose|q: int| 0 <= q < right@.len() && right@[q] == b@[j];
            assert(left@[p] == s@[p]);
            assert(right@[q] == s@[mid + q]);
        }
        assert forall|x: (u64, &'a FonCollection)| s@.contains(x) <==> left@.contains(x)
            || right@.contains(x) by {
            if s@.contains(x) {
                let k = choose|k: int| 0 <= k < s@.len() && s@[k] == x;
                if k < mid {
                    assert(left@[k] == x);
                } else {
                    assert(right@[k - mid] == x);
                }
            }
            if left@.contains(x) {
                let k = choose|k: int| 0 <= k < left@.len() && left@[k] == x;
                assert(s@[k] == x);
            }
            if right@.contains(x) {
                let k = choose|k: int| 0 <= k < right@.len() && right@[k] == x;
                assert(s@[mid + k] == x);
            }
        }
    }
    merge_runs(&a, &b)
}

/// Sorts records by id (the ids are distinct).
fn sort_by_id<'a>(entries: Vec<(u64, &'a FonCollection)>) -> (r: Vec<(u64, &'a FonCollection)>)
    requires
        forall|i: int, j: int| 0 <= i < j < entries@.len() ==> entries@[i].0 != entries@[j].0,
    ensures
        r@.len() == entries@.len(),
        forall|i: int, j: int| 0 <= i < j < r@.len() ==> r@[i].0 < r@[j].0,
        forall|x: (u64, &'a FonCollection)| r@.contains(x) <==> entries@.contains(x),
{
    if ids_increasing(&entries) {
        // already in order, as the records of a dense dump come
        return entries;
    }
    sort_run(entries.as_slice())
}

/// `rayon`'s `par_iter`, `map` and `collect` into a `Vec` over the records:
/// `serialize_to_string` on each, collected in order (collecting an indexed
/// parallel iterator into a `Vec` keeps its order). Its contract is
/// `serialize_to_string`'s, record by record.
#[verifier::external_body]
fn serialize_each(entries: &[(u64, &FonCollection)]) -> (r: Vec<String>)
    ensures
        r@.len() == entries@.len(),
        forall|i: int|
            0 <= i < entries@.len() ==> encode_utf8(#[trigger] r@[i]@) == write_fields(
                entries@[i].1@,
            ),
{
    entries.par_iter().map(|(_, c)| serialize_to_string(c)).collect()
}

/// Writes each record of a dump as a line of text (without line breaks), in
/// increasing order of id.
pub fn serialize_dump_lines(dump: &FonDump, _max_threads: i32) -> (r: Vec<String>)
    ensures
        exists|ids: Seq<u64>|
            ids_in_order(ids, dump@) && r@.len() == ids.len() && forall|i: int|
                0 <= i < ids.len() ==> encode_utf8(#[trigger] r@[i]@) == write_fields(dump@[ids[i]]),
{
    let listed = dump.iter();
    let ghost unsorted = listed@;
    let entries = sort_by_id(listed);
    let lines = serialize_each(entries.as_slice());
    proof {
        let ids = entries@.map_values(|e: (u64, &FonCollection)| e.0);
        assert forall|i: int| 0 <= i < ids.len() implies dump@.contains_key(#[trigger] ids[i])
            && entries@[i].1@ == dump@[ids[i]] by {
            assert(entries@.contains(entries@[i]));
            let j = choose|j: int| 0 <= j < unsorted.len() && unsorted[j] == entries@[i];
            assert(dump@.contains_key(unsorted[j].0));
        }
        assert forall|id: u64| #[trigger] dump@.contains_key(id) implies ids.contains(id) by {
            let j = choose|j: int| 0 <= j < unsorted.len() && #[trigger] unsorted[j].0 == id;
            assert(unsorted.contains(unsorted[j]));
            let i = choose|i: int| 0 <= i < entries@.len() && entries@[i] == unsorted[j];
            assert(ids[i] == id);
        }
        assert(ids_in_order(ids, dump@));
    }
    lines
}

/// The bytes of lines of text, each followed by `\n`, are valid UTF-8.
pub proof fn lemma_lines_text_valid(ls: Seq<Seq<u8>>)
    requires
        forall|i: int| 0 <= i < ls.len() ==> valid_utf8(#[trigger] ls[i]),
    ensures
        valid_utf8(lines_text(ls)),
    decreases ls.len(),
{
    if ls.len() == 0 {
        lemma_ascii_valid_utf8(Seq::<u8>::empty());
    } else {
        let init = ls.drop_last();
        assert forall|i: int| 0 <= i < init.len() implies valid_utf8(#[trigger] init[i]) by {
            assert(init[i] == ls[i]);
        }
        lemma_lines_text_valid(init);
        assert(valid_utf8(ls[ls.len() - 1]));
        lemma_ascii_valid_utf8(seq![10u8]);
        valid_utf8_concat(lines_text(init), ls.last());
        valid_utf8_concat(lines_text(init) + ls.last(), seq![10u8]);
    }
}

/// Writes a dump as text: each record as a line followed by `\n`, in
/// increasing order of id.
pub fn serialize_dump_to_string(dump: &FonDump, max_threads: i32) -> (r: String)
    ensures
        exists|ids: Seq<u64>|
            ids_in_order(ids, dump@) && encode_utf8(r@) == lines_text(texts_in_order(ids, dump@)),
{
    let lines = serialize_dump_lines(dump, max_threads);
    let ghost ids = choose|ids: Seq<u64>|
        ids_in_order(ids, dump@) && lines@.len() == ids.len() && forall|i: int|
            0 <= i < ids.len() ==> encode_utf8(#[trigger] lines@[i]@) == write_fields(dump@[ids[i]]);
    let ghost texts = texts_in_order(ids, dump@);
    let mut out: Vec<u8> = Vec::new();
    let mut k: usize = 0;
    while k < lines.len()
        invariant
            k <= lines@.len(),
            lines@.len() == texts.len(),
            forall|i: int| 0 <= i < texts.len() ==> encode_utf8(#[trigger] lines@[i]@) == texts[i],
            out@ == lines_text(texts.subrange(0, k as int)),
        decreases lines@.len() - k,
    {
        let ghost before = out@;
        push_bytes(&mut out, lines[k].as_str().as_bytes());
        out.push(10u8);
        proof {
            let sub = texts.subrange(0, k + 1);
            assert(sub.drop_last() =~= texts.subrange(0, k as int));
            assert(sub.last() == texts[k as int]);
            assert(out@ =~= before + texts[k as int] + seq![10u8]);
        }
        k += 1;
    }
    proof {
        assert(texts.subrange(0, texts.len() as int) =~= texts);
        assert forall|i: int| 0 <= i < texts.len() implies valid_utf8(#[trigger] texts[i]) by {
            lemma_fields_valid(dump@[ids[i]]);
        }
        lemma_lines_text_valid(texts);
    }
    match string_from_utf8(out) {
        Some(s) => {
            proof {
                lemma_decode_encode(lines_text(texts));
            }
            s
        },
        None => String::new(),
    }
}

/// There is one way to list the ids of a map in increasing order, so the
/// order in which the lines of a dump are written is determined.
pub proof fn lemma_ids_in_order_unique(
    a: Seq<u64>,
    b: Seq<u64>,
    m: Map<u64, Seq<(Seq<char>, ValueModel)>>,
)
    requires
        ids_in_order(a, m),
        ids_in_order(b, m),
    ensures
        a == b,
    decreases a.len(),
{
    if a.len() == 0 {
        if b.len() > 0 {
            assert(m.contains_key(b[0]));
            assert(a.contains(b[0]));
        }
        assert(a =~= b);
    } else {
        assert(m.contains_key(a[0]));
        assert(b.contains(a[0]));
        let j = choose|j: int| 0 <= j < b.len() && b[j] == a[0];
        assert(m.contains_key(b[0]));
        assert(a.contains(b[0]));
        let k = choose|k: int| 0 <= k < a.len() && a[k] == b[0];
        if k > 0 {
            assert(a[0] < a[k]);
        }
        if j > 0 {
            assert(b[0] < b[j]);
        }
        assert(a[0] == b[0]);
        let x = a[0];
        let m2 = m.remove(x);
        let a2 = a.subrange(1, a.len() as int);
        let b2 = b.subrange(1, b.len() as int);
        assert forall|i: int| 0 <= i < a2.len() implies m2.contains_key(#[trigger] a2[i]) by {
            assert(a2[i] == a[i + 1]);
            assert(a[0] < a[i + 1]);
            assert(m.contains_key(a[i + 1]));
        }
        assert forall|id: u64| #[trigger] m2.contains_key(id) implies a2.contains(id) by {
            assert(m.contains_key(id));
            assert(a.contains(id));
            let i = choose|i: int| 0 <= i < a.len() && a[i] == id;
            assert(i != 0);
            assert(a2[i - 1] == id);
        }
        assert forall|i: int| 0 <= i < b2.len() implies m2.contains_key(#[trigger] b2[i]) by {
            assert(b2[i] == b[i + 1]);
            assert(b[0] < b[i + 1]);
            assert(m.contains_key(b[i + 1]));
        }
        assert forall|id: u64| #[trigger] m2.contains_key(id) implies b2.contains(id) by {
            assert(m.contains_key(id));
            assert(b.contains(id));
            let i = choose|i: int| 0 <= i < b.len() && b[i] == id;
            assert(i != 0);
            assert(b2[i - 1] == id);
        }
        assert forall|p: int, q: int| 0 <= p < q < a2.len() implies a2[p] < a2[q] by {
            assert(a2[p] == a[p + 1] && a2[q] == a[q + 1]);
        }
        assert forall|p: int, q: int| 0 <= p < q < b2.len() implies b2[p] < b2[q] by {
            assert(b2[p] == b[p + 1] && b2[q] == b[q + 1]);
        }
        lemma_ids_in_order_unique(a2, b2, m2);
        assert(a =~= seq![x] + a2);
        assert(b =~= seq![x] + b2);
    }
}

} // verus!

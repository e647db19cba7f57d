//! Recursive-descent parsing of one record (a line) into a `FonCollection`,
//! including nested objects and object arrays.

use vstd::prelude::*;
use vstd::slice::{slice_subrange, slice_to_vec};

use crate::deserialize::scalar::{
    parse_bool_array, parse_float_array, parse_float_text, parse_num, parse_number_array,
    parse_string, parse_string_array, NumParse,
};
use crate::deserialize::scan::{find_byte, find_closing_brace, find_closing_bracket, find_value_end};
use crate::deserialize::DeserializeOptions;
use crate::error::{parse_error, FonError};
use crate::format::{
    lemma_closing_from_bound, lemma_find_from, lemma_prepend_empty, lemma_prepend_last,
    lemma_prepend_step, lemma_value_end_bound, prepend, read_fields, read_float_array,
    read_int_array, read_object, read_object_array, read_objects, read_string_array, read_value,
    skip_comma, suffix, Failure,
};
use crate::raw_data::{RawData, UnpackStep};
use crate::text::string_from_utf8;
use crate::types::{
    lemma_objects_model, objects_model, FonCollection, FonValue, IntKind, TYPE_BOOL, TYPE_BYTE,
    TYPE_DOUBLE, TYPE_FLOAT, TYPE_INT, TYPE_LONG, TYPE_OBJECT, TYPE_RAW, TYPE_SHORT, TYPE_STRING,
    TYPE_UINT, TYPE_ULONG,
};

verus! {

/// Why reading stopped: an error, or a raw payload whose Z85 text the
/// decoder does not handle.
pub enum Fault {
    Error(FonError),
    Aborts,
}

/// The fault is the failure the format describes.
pub open spec fn fault_is(f: Fault, g: Failure) -> bool {
    match g {
        Failure::Error(m) => f matches Fault::Error(FonError::Parse(e)) && e@ == m,
        Failure::Aborts => f is Aborts,
    }
}

fn error(msg: &str) -> (f: Fault)
    ensures
        f matches Fault::Error(FonError::Parse(m)) && m@ == msg@,
{
    Fault::Error(parse_error(msg))
}

/// Reads the fields of a record's text (see `read_fields`).
pub(crate) fn parse_collection_body(line: &[u8], depth: i32, opts: &DeserializeOptions) -> (r:
    Result<FonCollection, Fault>)
    ensures
        match read_fields(line@, depth as int, *opts) {
            Ok(fs) => r matches Ok(c) && c@ == fs,
            Err(g) => r matches Err(f) && fault_is(f, g),
        },
    decreases line@.len(), 3int,
{
    let ghost l = line@;
    let ghost o = *opts;
    let mut collection = FonCollection::new();
    let mut pos: usize = 0;
    proof {
        assert(suffix(l, 0) =~= l);
        lemma_prepend_empty(read_fields(l, depth as int, o));
    }
    while pos < line.len()
        invariant
            l == line@,
            o == *opts,
            pos <= l.len(),
            read_fields(l, depth as int, o) == prepend(
                collection@,
                read_fields(suffix(l, pos as int), depth as int, o),
            ),
        decreases l.len() - pos,
    {
        let rest = slice_subrange(line, pos, line.len());
        let ghost s = rest@;
        assert(s == suffix(l, pos as int));
        let eq = match find_byte(rest, 61) {
            Some(p) => p,
            None => {
                proof {
                    lemma_find_from(s, 61, 0);
                    assert(collection@ + Seq::empty() =~= collection@);
                }
                return Ok(collection);
            },
        };
        proof {
            lemma_find_from(s, 61, 0);
        }
        if rest.len() - eq <= 2 || rest[eq + 2] != 58 {
            return Err(error("Invalid format: expected type:value"));
        }
        let key = match string_from_utf8(slice_to_vec(slice_subrange(rest, 0, eq))) {
            Some(k) => k,
            None => return Err(error("Invalid UTF-8 in input")),
        };
        let type_char = rest[eq + 1];
        let data = slice_subrange(rest, eq + 3, rest.len());
        let (value, consumed) = match parse_value(data, type_char, depth, opts) {
            Ok(x) => x,
            Err(f) => return Err(f),
        };
        let ghost entry = (key@, value.model());
        let ghost before = collection@;
        collection.add(key, value);
        if consumed >= data.len() {
            proof {
                assert(suffix(l, pos + eq + 3 + consumed) =~= Seq::<u8>::empty());
                lemma_prepend_last(entry);
                assert(read_fields(s, depth as int, o) == prepend(seq![entry], Ok(Seq::empty())));
                lemma_prepend_step(before, entry, Ok(Seq::empty()));
                assert(collection@ + Seq::empty() =~= collection@);
            }
            return Ok(collection);
        }
        let mut p = eq + 3 + consumed;
        if p < rest.len() && rest[p] == 44 {
            p += 1;
        }
        proof {
            let next = read_fields(suffix(l, pos + p), depth as int, o);
            assert(p == skip_comma(s, eq + 3 + consumed));
            if p < s.len() {
                assert(s.subrange(p as int, s.len() as int) =~= suffix(l, pos + p));
            } else {
                assert(suffix(l, pos + p) =~= Seq::<u8>::empty());
                lemma_prepend_last(entry);
            }
            assert(read_fields(s, depth as int, o) == prepend(seq![entry], next));
            lemma_prepend_step(before, entry, next);
        }
        pos += p;
    }
    proof {
        assert(suffix(l, pos as int) =~= Seq::<u8>::empty());
        assert(collection@ + Seq::empty() =~= collection@);
    }
    Ok(collection)
}

/// Reads one value of type `type_char` at the start of `data` (see
/// `read_value`): the value and the bytes used.
pub fn parse_value(data: &[u8], type_char: u8, depth: i32, opts: &DeserializeOptions) -> (r:
    Result<(FonValue, usize), Fault>)
    requires
        data@.len() < usize::MAX,
    ensures
        match read_value(data@, type_char, depth as int, *opts) {
            Ok((v, n)) => r matches Ok((x, m)) && x.model() == v && m == n,
            Err(g) => r matches Err(f) && fault_is(f, g),
        },
        r matches Ok((_, m)) ==> m <= data@.len() + 1,
    decreases data@.len(), 2int,
{
    if data.len() == 0 {
        return Err(error("Empty value"));
    }
    if type_char == TYPE_OBJECT {
        if (data[0] == 123 || data[0] == 91) && depth == i32::MAX {
            // one level below this is past any limit an `i32` can hold
            return Err(error("Maximum nesting depth exceeded"));
        }
        if data[0] == 123 {
            return match parse_object(data, depth + 1, opts) {
                Ok((obj, n)) => Ok((FonValue::Object(Box::new(obj)), n)),
                Err(f) => Err(f),
            };
        }
        if data[0] == 91 {
            return match parse_object_array(data, depth + 1, opts) {
                Ok((arr, n)) => Ok((FonValue::ObjectArray(arr), n)),
                Err(f) => Err(f),
            };
        }
        return Err(error("Object must start with '{' or '['"));
    }
    if data[0] == 91 {
        return match type_char {
            TYPE_BYTE => match parse_number_array::<u8>(data) {
                Ok((v, n)) => {
                    proof {
                        let vs = read_int_array(data@, IntKind::Byte)->Ok_0.0;
                        assert forall|i: int| 0 <= i < vs.len() implies v@.map_values(
                            |x: u8| x as int,
                        )[i] == vs[i] by {
                            assert(<u8 as NumParse>::as_int(v@[i]) == vs[i]);
                        }
                        assert(v@.map_values(|x: u8| x as int) =~= vs);
                    }
                    Ok((FonValue::ByteArray(v), n))
                },
                Err(e) => Err(Fault::Error(e)),
            },
            TYPE_SHORT => match parse_number_array::<i16>(data) {
                Ok((v, n)) => {
                    proof {
                        let vs = read_int_array(data@, IntKind::Short)->Ok_0.0;
                        assert forall|i: int| 0 <= i < vs.len() implies v@.map_values(
                            |x: i16| x as int,
                        )[i] == vs[i] by {
                            assert(<i16 as NumParse>::as_int(v@[i]) == vs[i]);
                        }
                        assert(v@.map_values(|x: i16| x as int) =~= vs);
                    }
                    Ok((FonValue::ShortArray(v), n))
                },
                Err(e) => Err(Fault::Error(e)),
            },
            TYPE_INT => match parse_number_array::<i32>(data) {
                Ok((v, n)) => {
                    proof {
                        let vs = read_int_array(data@, IntKind::Int)->Ok_0.0;
                        assert forall|i: int| 0 <= i < vs.len() implies v@.map_values(
                            |x: i32| x as int,
                        )[i] == vs[i] by {
                            assert(<i32 as NumParse>::as_int(v@[i]) == vs[i]);
                        }
                        assert(v@.map_values(|x: i32| x as int) =~= vs);
                    }
                    Ok((FonValue::IntArray(v), n))
                },
                Err(e) => Err(Fault::Error(e)),
            },
            TYPE_UINT => match parse_number_array::<u32>(data) {
                Ok((v, n)) => {
                    proof {
                        let vs = read_int_array(data@, IntKind::UInt)->Ok_0.0;
                        assert forall|i: int| 0 <= i < vs.len() implies v@.map_values(
                            |x: u32| x as int,
                        )[i] == vs[i] by {
                            assert(<u32 as NumParse>::as_int(v@[i]) == vs[i]);
                        }
                        assert(v@.map_values(|x: u32| x as int) =~= vs);
                    }
                    Ok((FonValue::UIntArray(v), n))
                },
                Err(e) => Err(Fault::Error(e)),
            },
            TYPE_LONG => match parse_number_array::<i64>(data) {
                Ok((v, n)) => {
                    proof {
                        let vs = read_int_array(data@, IntKind::Long)->Ok_0.0;
                        assert forall|i: int| 0 <= i < vs.len() implies v@.map_values(
                            |x: i64| x as int,
                        )[i] == vs[i] by {
                            assert(<i64 as NumParse>::as_int(v@[i]) == vs[i]);
                        }
                        assert(v@.map_values(|x: i64| x as int) =~= vs);
                    }
                    Ok((FonValue::LongArray(v), n))
                },
                Err(e) => Err(Fault::Error(e)),
            },
            TYPE_ULONG => match parse_number_array::<u64>(data) {
                Ok((v, n)) => {
                    proof {
                        let vs = read_int_array(data@, IntKind::ULong)->Ok_0.0;
                        assert forall|i: int| 0 <= i < vs.len() implies v@.map_values(
                            |x: u64| x as int,
                        )[i] == vs[i] by {
                            assert(<u64 as NumParse>::as_int(v@[i]) == vs[i]);
                        }
                        assert(v@.map_values(|x: u64| x as int) =~= vs);
                    }
                    Ok((FonValue::ULongArray(v), n))
                },
                Err(e) => Err(Fault::Error(e)),
            },
            TYPE_FLOAT => match parse_float_array(data) {
                Ok((v, n)) => {
                    assert(v@.map_values(|t: String| t@) =~= read_float_array(data@)->Ok_0.0);
                    Ok((FonValue::FloatArray(v), n))
                },
                Err(e) => Err(Fault::Error(e)),
            },
            TYPE_DOUBLE => match parse_float_array(data) {
                Ok((v, n)) => {
                    assert(v@.map_values(|t: String| t@) =~= read_float_array(data@)->Ok_0.0);
                    Ok((FonValue::DoubleArray(v), n))
                },
                Err(e) => Err(Fault::Error(e)),
            },
            TYPE_STRING => match parse_string_array(data) {
                Ok((v, n)) => {
                    assert(v@.map_values(|t: String| t@) =~= read_string_array(data@)->Ok_0.0);
                    Ok((FonValue::StringArray(v), n))
                },
                Err(e) => Err(Fault::Error(e)),
            },
            TYPE_BOOL => match parse_bool_array(data) {
                Ok((v, n)) => Ok((FonValue::BoolArray(v), n)),
                Err(e) => Err(Fault::Error(e)),
            },
            _ => Err(error("Unsupported array type")),
        };
    }
    if type_char == TYPE_STRING {
        return match parse_string(data) {
            Ok((s, n)) => Ok((FonValue::String(s), n)),
            Err(e) => Err(Fault::Error(e)),
        };
    }
    if type_char == TYPE_RAW {
        let (s, n) = match parse_string(data) {
            Ok(x) => x,
            Err(e) => return Err(Fault::Error(e)),
        };
        let mut raw = RawData::from_encoded(s);
        if opts.unpack_raw {
            match raw.unpack_step() {
                UnpackStep::Done => {},
                UnpackStep::InvalidChar => return Err(error("Invalid Z85 character")),
                UnpackStep::Aborts => return Err(Fault::Aborts),
            }
        }
        return Ok((FonValue::Raw(Box::new(raw)), n));
    }
    let end = find_value_end(data);
    proof {
        lemma_value_end_bound(data@);
    }
    let num = slice_subrange(data, 0, end);
    let mut consumed = end;
    if consumed < data.len() && data[consumed] == 44 {
        consumed += 1;
    }
    let value = match type_char {
        TYPE_BYTE => match parse_num::<u8>(num) {
            Ok(x) => FonValue::Byte(x),
            Err(e) => return Err(Fault::Error(e)),
        },
        TYPE_SHORT => match parse_num::<i16>(num) {
            Ok(x) => FonValue::Short(x),
            Err(e) => return Err(Fault::Error(e)),
        },
        TYPE_INT => match parse_num::<i32>(num) {
            Ok(x) => FonValue::Int(x),
            Err(e) => return Err(Fault::Error(e)),
        },
        TYPE_UINT => match parse_num::<u32>(num) {
            Ok(x) => FonValue::UInt(x),
            Err(e) => return Err(Fault::Error(e)),
        },
        TYPE_LONG => match parse_num::<i64>(num) {
            Ok(x) => FonValue::Long(x),
            Err(e) => return Err(Fault::Error(e)),
        },
        TYPE_ULONG => match parse_num::<u64>(num) {
            Ok(x) => FonValue::ULong(x),
            Err(e) => return Err(Fault::Error(e)),
        },
        TYPE_FLOAT => match parse_float_text(num) {
            Ok(t) => FonValue::Float(t),
            Err(e) => return Err(Fault::Error(e)),
        },
        TYPE_DOUBLE => match parse_float_text(num) {
            Ok(t) => FonValue::Double(t),
            Err(e) => return Err(Fault::Error(e)),
        },
        TYPE_BOOL => FonValue::Bool(data[0] != 48),
        _ => return Err(error("Unknown type")),
    };
    Ok((value, consumed))
}

/// Reads the nested record at the start of `data`, which stands at nesting
/// depth `depth` (see `read_object`).
pub(crate) fn parse_object(data: &[u8], depth: i32, opts: &DeserializeOptions) -> (r: Result<
    (FonCollection, usize),
    Fault,
>)
    ensures
        match read_object(data@, depth as int, *opts) {
            Ok((fs, n)) => r matches Ok((c, m)) && c@ == fs && m == n,
            Err(g) => r matches Err(f) && fault_is(f, g),
        },
        r matches Ok((_, m)) ==> 0 < m <= data@.len(),
    decreases data@.len(), 0int,
{
    if depth > opts.max_depth {
        return Err(error("Maximum nesting depth exceeded"));
    }
    if data.len() == 0 || data[0] != 123 {
        return Err(error("Object must start with '{'"));
    }
    let close = match find_closing_brace(data) {
        Ok(c) => c,
        Err(e) => return Err(Fault::Error(e)),
    };
    proof {
        lemma_closing_from_bound(data@, 0, 0, false, 123, 125);
    }
    let body = slice_subrange(data, 1, close);
    let collection = match parse_collection_body(body, depth, opts) {
        Ok(c) => c,
        Err(f) => return Err(f),
    };
    let mut consumed = close + 1;
    if consumed < data.len() && data[consumed] == 44 {
        consumed += 1;
    }
    Ok((collection, consumed))
}

/// Reads the array of nested records at the start of `data`, which stands
/// at nesting depth `depth` (see `read_object_array`).
pub(crate) fn parse_object_array(data: &[u8], depth: i32, opts: &DeserializeOptions) -> (r: Result<
    (Vec<Box<FonCollection>>, usize),
    Fault,
>)
    ensures
        match read_object_array(data@, depth as int, *opts) {
            Ok((os, n)) => r matches Ok((v, m)) && objects_model(v@) == os && m == n,
            Err(g) => r matches Err(f) && fault_is(f, g),
        },
        r matches Ok((_, m)) ==> m <= data@.len(),
    decreases data@.len(), 1int,
{
    if depth > opts.max_depth {
        return Err(error("Maximum nesting depth exceeded"));
    }
    if data.len() == 0 || data[0] != 91 {
        return Err(error("Object array must start with '['"));
    }
    let close = match find_closing_bracket(data) {
        Ok(c) => c,
        Err(e) => return Err(Fault::Error(e)),
    };
    proof {
        lemma_closing_from_bound(data@, 0, 0, false, 91, 93);
    }
    let content = slice_subrange(data, 1, close);
    let ghost c = content@;
    let ghost d = depth as int;
    let ghost o = *opts;
    let mut result: Vec<Box<FonCollection>> = Vec::new();
    let mut pos: usize = 0;
    let ghost whole = match read_objects(c, d, o) {
        Ok(os) => Ok((os, skip_comma(data@, close + 1))),
        Err(f) => Err(f),
    };
    assert(read_object_array(data@, d, o) == whole);
    proof {
        assert(suffix(c, 0) =~= c);
        lemma_objects_model(result@);
        assert(objects_model(result@) =~= Seq::empty());
        lemma_prepend_empty(read_objects(c, d, o));
    }
    while pos < content.len()
        invariant
            c == content@,
            o == *opts,
            d == depth,
            depth <= opts.max_depth,
            read_object_array(data@, d, o) == whole,
            whole == match read_objects(c, d, o) {
                Ok(os) => Ok((os, skip_comma(data@, close + 1))),
                Err(f) => Err(f),
            },
            close < data@.len(),
            content@.len() < data@.len(),
            pos <= c.len(),
            read_objects(c, d, o) == prepend(
                objects_model(result@),
                read_objects(suffix(c, pos as int), d, o),
            ),
        decreases c.len() - pos,
    {
        let remaining = slice_subrange(content, pos, content.len());
        let ghost s = remaining@;
        assert(s == suffix(c, pos as int));
        if remaining[0] != 123 {
            return Err(error("Object array element must start with '{'"));
        }
        let (obj, consumed) = match parse_object(remaining, depth, opts) {
            Ok(x) => x,
            Err(f) => return Err(f),
        };
        let ghost before = objects_model(result@);
        let ghost old_result = result@;
        let ghost fs = obj@;
        result.push(Box::new(obj));
        proof {
            lemma_objects_model(result@);
            lemma_objects_model(result@.subrange(0, result@.len() - 1));
            assert(result@.subrange(0, result@.len() - 1) =~= old_result);
            assert(objects_model(result@) =~= before.push(fs));
            let next = read_objects(suffix(c, pos + consumed), d, o);
            if consumed < s.len() {
                assert(s.subrange(consumed as int, s.len() as int) =~= suffix(c, pos + consumed));
            } else {
                assert(suffix(c, pos + consumed) =~= Seq::<u8>::empty());
                lemma_prepend_last(fs);
            }
            assert(read_objects(s, d, o) == prepend(seq![fs], next));
            lemma_prepend_step(before, fs, next);
        }
        pos += consumed;
    }
    proof {
        assert(suffix(c, pos as int) =~= Seq::<u8>::empty());
        assert(objects_model(result@) + Seq::empty() =~= objects_model(result@));
    }
    let mut total = close + 1;
    if total < data.len() && data[total] == 44 {
        total += 1;
    }
    Ok((result, total))
}

} // verus!

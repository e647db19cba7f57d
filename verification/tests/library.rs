use fon::deserialize::dump_is_readable;
use fon::deserialize::record::{parse_value, Fault};
use fon::serialize::serialize_value;
use fon::types::{FonCollection, FonDump, FonValue};
use fon::{
    deserialize_dump_from_bytes, deserialize_line, serialize_dump_lines, serialize_dump_to_string,
    serialize_to_string, try_deserialize_line, DeserializeOptions, FonError, RawData,
};

fn parse(text: &str) -> Result<FonCollection, FonError> {
    deserialize_line(text.as_bytes(), &DeserializeOptions::default())
}

fn parse_error_message(text: &[u8]) -> String {
    match deserialize_line(text, &DeserializeOptions::default()) {
        Err(FonError::Parse(m)) => m,
        Err(other) => panic!("unexpected error kind: {:?}", other),
        Ok(_) => panic!("expected an error"),
    }
}

fn record(fields: Vec<(&str, FonValue)>) -> FonCollection {
    let mut c = FonCollection::new();
    for (k, v) in fields {
        c.add(k.to_string(), v);
    }
    c
}

#[test]
fn writes_the_exact_text_of_a_record() {
    let c = record(vec![
        ("id", FonValue::Int(42)),
        ("name", FonValue::String("Test".into())),
        ("active", FonValue::Bool(true)),
    ]);
    assert_eq!(serialize_to_string(&c), "id=i:42,name=s:\"Test\",active=b:1");
}

#[test]
fn writes_every_integer_kind_at_its_limits() {
    let c = record(vec![
        ("e", FonValue::Byte(255)),
        ("t", FonValue::Short(-32768)),
        ("i", FonValue::Int(-2147483648)),
        ("u", FonValue::UInt(4294967295)),
        ("l", FonValue::Long(i64::MIN)),
        ("g", FonValue::ULong(u64::MAX)),
    ]);
    let text = serialize_to_string(&c);
    assert_eq!(
        text,
        "e=e:255,t=t:-32768,i=i:-2147483648,u=u:4294967295,l=l:-9223372036854775808,g=g:18446744073709551615"
    );
    let back = parse(&text).unwrap();
    assert!(matches!(back.get("e"), Some(FonValue::Byte(255))));
    assert!(matches!(back.get("t"), Some(FonValue::Short(-32768))));
    assert!(matches!(back.get("i"), Some(FonValue::Int(-2147483648))));
    assert!(matches!(back.get("u"), Some(FonValue::UInt(4294967295))));
    assert!(matches!(back.get("l"), Some(FonValue::Long(i64::MIN))));
    assert!(matches!(back.get("g"), Some(FonValue::ULong(u64::MAX))));
}

#[test]
fn escapes_strings_and_reads_them_back() {
    let c = record(vec![("s", FonValue::String("a\"b\\c\nd\te\r\u{8}\u{c}!".into()))]);
    let text = serialize_to_string(&c);
    assert_eq!(text, "s=s:\"a\\\"b\\\\c\\nd\\te\\r\\b\\f!\"");
    match parse(&text).unwrap().get("s") {
        Some(FonValue::String(s)) => assert_eq!(s.as_str(), "a\"b\\c\nd\te\r\u{8}\u{c}!"),
        _ => panic!("expected a string"),
    }
}

#[test]
fn writes_other_control_characters_as_unicode_escapes() {
    let c = record(vec![("s", FonValue::String("x\u{1}\u{1f}".into()))]);
    assert_eq!(serialize_to_string(&c), "s=s:\"x\\u0001\\u001F\"");
}

#[test]
fn arrays_of_every_kind_roundtrip() {
    let c = record(vec![
        ("bytes", FonValue::ByteArray(vec![0, 7, 255])),
        ("shorts", FonValue::ShortArray(vec![-1, 2])),
        ("uints", FonValue::UIntArray(vec![])),
        ("longs", FonValue::LongArray(vec![-5])),
        ("ulongs", FonValue::ULongArray(vec![1, 2, 3])),
        ("floats", FonValue::FloatArray(vec!["1.5".into(), "-2e3".into()])),
        ("doubles", FonValue::DoubleArray(vec!["nan".into(), "-inf".into()])),
        ("bools", FonValue::BoolArray(vec![true, false, true])),
        ("strings", FonValue::StringArray(vec!["x".into(), "y,z]".into()])),
    ]);
    let text = serialize_to_string(&c);
    assert_eq!(
        text,
        "bytes=e:[0,7,255],shorts=t:[-1,2],uints=u:[],longs=l:[-5],ulongs=g:[1,2,3],floats=f:[1.5,-2e3],doubles=d:[nan,-inf],bools=b:[1,0,1],strings=s:[\"x\",\"y,z]\"]"
    );
    let back = parse(&text).unwrap();
    assert_eq!(back.len(), 9);
    match back.get("bytes") {
        Some(FonValue::ByteArray(v)) => assert_eq!(v, &vec![0u8, 7, 255]),
        _ => panic!("bytes"),
    }
    match back.get("shorts") {
        Some(FonValue::ShortArray(v)) => assert_eq!(v, &vec![-1i16, 2]),
        _ => panic!("shorts"),
    }
    match back.get("uints") {
        Some(FonValue::UIntArray(v)) => assert!(v.is_empty()),
        _ => panic!("uints"),
    }
    match back.get("floats") {
        Some(FonValue::FloatArray(v)) => assert_eq!(v, &vec!["1.5".to_string(), "-2e3".to_string()]),
        _ => panic!("floats"),
    }
    match back.get("doubles") {
        Some(FonValue::DoubleArray(v)) => assert_eq!(v, &vec!["nan".to_string(), "-inf".to_string()]),
        _ => panic!("doubles"),
    }
    match back.get("bools") {
        Some(FonValue::BoolArray(v)) => assert_eq!(v, &vec![true, false, true]),
        _ => panic!("bools"),
    }
    match back.get("strings") {
        Some(FonValue::StringArray(v)) => assert_eq!(v, &vec!["x".to_string(), "y,z]".to_string()]),
        _ => panic!("strings"),
    }
}

#[test]
fn object_arrays_and_nested_strings_with_brackets_roundtrip() {
    let inner = record(vec![("k", FonValue::String("}]{[".into()))]);
    let empty = FonCollection::new();
    let c = record(vec![
        ("list", FonValue::ObjectArray(vec![Box::new(inner), Box::new(empty)])),
        ("after", FonValue::Int(1)),
    ]);
    let text = serialize_to_string(&c);
    assert_eq!(text, "list=o:[{k=s:\"}]{[\"},{}],after=i:1");
    let back = parse(&text).unwrap();
    match back.get("list") {
        Some(FonValue::ObjectArray(v)) => {
            assert_eq!(v.len(), 2);
            match v[0].get("k") {
                Some(FonValue::String(s)) => assert_eq!(s.as_str(), "}]{["),
                _ => panic!("k"),
            }
            assert!(v[1].is_empty());
        }
        _ => panic!("list"),
    }
    assert!(matches!(back.get("after"), Some(FonValue::Int(1))));
}

#[test]
fn floats_are_kept_as_their_text() {
    let c = record(vec![("f", FonValue::Float("0.25".into())), ("d", FonValue::Double("1e300".into()))]);
    let text = serialize_to_string(&c);
    assert_eq!(text, "f=f:0.25,d=d:1e300");
    let back = parse(&text).unwrap();
    match back.get("d") {
        Some(FonValue::Double(t)) => assert_eq!(t.as_str(), "1e300"),
        _ => panic!("d"),
    }
}

#[test]
fn raw_payload_packs_to_z85() {
    let bytes = vec![0x86u8, 0x4F, 0xD2, 0x6F, 0xB5, 0x59, 0xF7, 0x5B];
    let mut raw = RawData::from_bytes(bytes.clone());
    assert!(raw.is_unpacked());
    raw.pack();
    assert!(raw.is_packed());
    assert_eq!(raw.encoded(), "HelloWorld");
    raw.unpack().unwrap();
    assert_eq!(raw.data(), &bytes[..]);
}

#[test]
fn raw_payload_with_a_partial_block_roundtrips() {
    let bytes = vec![1u8, 2, 3, 4, 5, 6];
    let mut raw = RawData::from_bytes(bytes.clone());
    raw.pack();
    assert_eq!(raw.encoded().len(), 11);
    assert!(raw.encoded().ends_with('2'));
    raw.unpack().unwrap();
    assert_eq!(raw.data(), &bytes[..]);
}

#[test]
fn raw_value_is_written_packed_and_read_with_or_without_unpacking() {
    let bytes = vec![0x86u8, 0x4F, 0xD2, 0x6F, 0xB5, 0x59, 0xF7, 0x5B];
    let c = record(vec![("r", FonValue::Raw(Box::new(RawData::from_bytes(bytes.clone()))))]);
    let text = serialize_to_string(&c);
    assert_eq!(text, "r=r:\"HelloWorld\"");
    let packed = parse(&text).unwrap();
    match packed.get("r") {
        Some(FonValue::Raw(r)) => assert_eq!(r.encoded(), "HelloWorld"),
        _ => panic!("raw"),
    }
    let opts = DeserializeOptions { max_depth: 64, unpack_raw: true };
    let unpacked = deserialize_line(text.as_bytes(), &opts).unwrap();
    match unpacked.get("r") {
        Some(FonValue::Raw(r)) => assert_eq!(r.data(), &bytes[..]),
        _ => panic!("raw"),
    }
}

#[test]
fn invalid_z85_character_is_a_parse_error() {
    let opts = DeserializeOptions { max_depth: 64, unpack_raw: true };
    match deserialize_line(b"r=r:\"~~~~~\"", &opts) {
        Err(FonError::Parse(m)) => assert_eq!(m, "Invalid Z85 character"),
        _ => panic!("expected an error"),
    }
    let mut raw = RawData::from_encoded("ab~de".to_string());
    assert!(raw.unpack().is_err());
    assert_eq!(raw.encoded(), "ab~de");
}

#[test]
fn try_deserialize_line_reads_like_deserialize_line() {
    let opts = DeserializeOptions::default();
    match try_deserialize_line(b"a=i:5", &opts) {
        Some(Ok(c)) => assert!(matches!(c.get("a"), Some(FonValue::Int(5)))),
        _ => panic!("expected a record"),
    }
    assert!(matches!(try_deserialize_line(b"a=i:x", &opts), Some(Err(_))));
}

#[test]
fn each_parse_error_has_its_message() {
    assert_eq!(parse_error_message(b"a=x:1"), "Unknown type");
    assert_eq!(parse_error_message(b"a=i"), "Invalid format: expected type:value");
    assert_eq!(parse_error_message(b"a=i:abc"), "Failed to parse number: 'abc'");
    assert_eq!(parse_error_message(b"a=e:256"), "Failed to parse number: '256'");
    assert_eq!(parse_error_message(b"a=f:1.2.3"), "Failed to parse number: '1.2.3'");
    assert_eq!(parse_error_message(b"a=i:"), "Empty value");
    assert_eq!(parse_error_message(b"a=o:x"), "Object must start with '{' or '['");
    assert_eq!(parse_error_message(b"a=o:{b=i:1"), "Closing brace not found");
    assert_eq!(parse_error_message(b"a=i:[1,2"), "Closing bracket not found");
    assert_eq!(parse_error_message(b"a=r:[1]"), "Unsupported array type");
    assert_eq!(parse_error_message(b"a=s:x"), "String must start with '\"'");
    assert_eq!(parse_error_message(b"a=b:[1,,0]"), "Empty value");
    assert_eq!(parse_error_message(b"a=o:[x]"), "Object array element must start with '{'");
    assert_eq!(parse_error_message(b"a=s:\"\xff\""), "Invalid UTF-8 in input");
    assert_eq!(parse_error_message(b"a=i:\xff"), "Invalid UTF-8 in input");
}

#[test]
fn a_line_without_fields_reads_as_an_empty_record() {
    assert!(parse("no fields here").unwrap().is_empty());
    assert!(parse("").unwrap().is_empty());
}

#[test]
fn nesting_depth_is_counted_per_level() {
    let text = "a=o:{b=o:{c=i:1}}";
    assert!(deserialize_line(text.as_bytes(), &DeserializeOptions { max_depth: 2, unpack_raw: false }).is_ok());
    match deserialize_line(text.as_bytes(), &DeserializeOptions { max_depth: 0, unpack_raw: false }) {
        Err(FonError::Parse(m)) => assert_eq!(m, "Maximum nesting depth exceeded"),
        _ => panic!("expected an error"),
    }
    let arrays = "a=o:[{b=o:[{}]}]";
    assert!(deserialize_line(arrays.as_bytes(), &DeserializeOptions { max_depth: 2, unpack_raw: false }).is_ok());
    assert!(deserialize_line(arrays.as_bytes(), &DeserializeOptions { max_depth: 1, unpack_raw: false }).is_err());
}

#[test]
fn get_finds_the_first_field_with_a_key() {
    let mut c = FonCollection::new();
    c.add("k".into(), FonValue::Int(1));
    c.add("k".into(), FonValue::Int(2));
    assert_eq!(c.len(), 2);
    assert!(matches!(c.get("k"), Some(FonValue::Int(1))));
    assert!(c.get("missing").is_none());
}

#[test]
fn get_mut_changes_the_field_in_place() {
    let mut c = record(vec![("a", FonValue::Int(1)), ("b", FonValue::Int(2))]);
    if let Some(v) = c.get_mut("b") {
        *v = FonValue::Bool(false);
    }
    assert!(matches!(c.get("b"), Some(FonValue::Bool(false))));
    assert!(c.get_mut("zzz").is_none());
    assert_eq!(serialize_to_string(&c), "a=i:1,b=b:0");
}

#[test]
fn iter_lists_the_fields_in_order() {
    let c = record(vec![("x", FonValue::Int(1)), ("y", FonValue::Bool(true))]);
    let keys: Vec<&str> = c.iter().iter().map(|(k, _)| k.as_str()).collect();
    assert_eq!(keys, vec!["x", "y"]);
    assert_eq!(c.iter()[1].1.type_char(), b'b');
}

#[test]
fn type_char_names_each_kind() {
    assert_eq!(FonValue::Byte(1).type_char(), b'e');
    assert_eq!(FonValue::ShortArray(vec![]).type_char(), b't');
    assert_eq!(FonValue::Float("1".into()).type_char(), b'f');
    assert_eq!(FonValue::DoubleArray(vec![]).type_char(), b'd');
    assert_eq!(FonValue::Raw(Box::new(RawData::from_bytes(vec![]))).type_char(), b'r');
    assert_eq!(FonValue::ObjectArray(vec![]).type_char(), b'o');
    assert_eq!(FonValue::ULong(1).type_char(), b'g');
}

#[test]
fn dump_reads_one_record_per_line() {
    let text = b"a=i:1\r\nb=i:2\n\nc=i:3\rd=s:\"x\"";
    let dump = deserialize_dump_from_bytes(text, 4, &DeserializeOptions::default()).unwrap();
    assert_eq!(dump.len(), 4);
    assert!(matches!(dump.get(0).unwrap().get("a"), Some(FonValue::Int(1))));
    assert!(matches!(dump.get(1).unwrap().get("b"), Some(FonValue::Int(2))));
    assert!(matches!(dump.get(2).unwrap().get("c"), Some(FonValue::Int(3))));
    assert!(dump.get(4).is_none());
}

#[test]
fn dump_leaves_out_records_without_fields() {
    let dump = deserialize_dump_from_bytes(b"nothing\na=i:1\n", 1, &DeserializeOptions::default()).unwrap();
    assert_eq!(dump.len(), 1);
    assert!(matches!(dump.get(0).unwrap().get("a"), Some(FonValue::Int(1))));
}

#[test]
fn empty_dump_text_reads_as_an_empty_dump() {
    assert!(deserialize_dump_from_bytes(b"", 1, &DeserializeOptions::default()).unwrap().is_empty());
    assert!(deserialize_dump_from_bytes(&[0xEF, 0xBB, 0xBF], 1, &DeserializeOptions::default())
        .unwrap()
        .is_empty());
}

#[test]
fn dump_reports_the_first_failing_line() {
    match deserialize_dump_from_bytes(b"a=i:1\nb=i:x\nc=i:y\n", 2, &DeserializeOptions::default()) {
        Err(FonError::Parse(m)) => assert_eq!(m, "Failed to parse number: 'x'"),
        _ => panic!("expected an error"),
    }
    assert!(deserialize_dump_from_bytes(b"a=i:1\n\xff\n", 2, &DeserializeOptions::default()).is_err());
}

#[test]
fn large_dump_is_read_in_order() {
    let mut text = String::new();
    for i in 0..5000 {
        text.push_str(&format!("id=i:{},pad=s:\"{}\"\n", i, "x".repeat(300)));
    }
    let dump = deserialize_dump_from_bytes(text.as_bytes(), 8, &DeserializeOptions::default()).unwrap();
    assert_eq!(dump.len(), 5000);
    for i in [0u64, 1, 2500, 4999] {
        assert!(matches!(dump.get(i).unwrap().get("id"), Some(FonValue::Int(v)) if *v as u64 == i));
    }
}

#[test]
fn dump_add_get_and_promotion() {
    let mut dump = FonDump::from_records(vec![record(vec![("a", FonValue::Int(0))]), FonCollection::new()]);
    assert_eq!(dump.len(), 2);
    dump.add(2, record(vec![("a", FonValue::Int(2))]));
    assert_eq!(dump.len(), 3);
    dump.add(10, record(vec![("a", FonValue::Int(10))]));
    assert_eq!(dump.len(), 4);
    assert!(matches!(dump.get(10).unwrap().get("a"), Some(FonValue::Int(10))));
    assert!(matches!(dump.get(0).unwrap().get("a"), Some(FonValue::Int(0))));
    assert!(dump.get(1).unwrap().is_empty());
    assert!(dump.get(5).is_none());
    dump.add(10, record(vec![("a", FonValue::Int(11))]));
    assert_eq!(dump.len(), 4);
    assert!(matches!(dump.get(10).unwrap().get("a"), Some(FonValue::Int(11))));
    let mut ids: Vec<u64> = dump.iter().iter().map(|(id, _)| *id).collect();
    ids.sort();
    assert_eq!(ids, vec![0, 1, 2, 10]);
}

#[test]
fn dump_get_mut_changes_a_record() {
    let mut dense = FonDump::from_records(vec![FonCollection::new()]);
    dense.get_mut(0).unwrap().add("x".into(), FonValue::Int(1));
    assert!(matches!(dense.get(0).unwrap().get("x"), Some(FonValue::Int(1))));
    assert!(dense.get_mut(3).is_none());
    let mut sparse = FonDump::with_capacity(4);
    sparse.add(7, FonCollection::new());
    sparse.get_mut(7).unwrap().add("y".into(), FonValue::Int(2));
    assert!(matches!(sparse.get(7).unwrap().get("y"), Some(FonValue::Int(2))));
    assert!(sparse.get_mut(8).is_none());
}

#[test]
fn dump_lines_come_in_order_of_id() {
    let mut dump = FonDump::new();
    dump.add(9, record(vec![("n", FonValue::Int(9))]));
    dump.add(2, record(vec![("n", FonValue::Int(2))]));
    dump.add(5, FonCollection::new());
    let lines = serialize_dump_lines(&dump, 2);
    assert_eq!(lines, vec!["n=i:2".to_string(), String::new(), "n=i:9".to_string()]);
    assert_eq!(serialize_dump_to_string(&dump, 2), "n=i:2\n\nn=i:9\n");
}

#[test]
fn written_dump_reads_back_without_its_empty_records() {
    let mut dump = FonDump::new();
    dump.add(30, record(vec![("b", FonValue::String("two".into()))]));
    dump.add(10, record(vec![("a", FonValue::IntArray(vec![1, -1]))]));
    dump.add(20, FonCollection::new());
    let text = serialize_dump_to_string(&dump, 3);
    let back = deserialize_dump_from_bytes(text.as_bytes(), 3, &DeserializeOptions::default()).unwrap();
    assert_eq!(back.len(), 2);
    match back.get(0).unwrap().get("a") {
        Some(FonValue::IntArray(v)) => assert_eq!(v, &vec![1, -1]),
        _ => panic!("a"),
    }
    match back.get(1).unwrap().get("b") {
        Some(FonValue::String(s)) => assert_eq!(s.as_str(), "two"),
        _ => panic!("b"),
    }
}

#[test]
fn error_message_is_the_carried_text() {
    assert_eq!(FonError::Parse("p".into()).message(), "p");
    assert_eq!(FonError::Write("w".into()).message(), "w");
    assert_eq!(FonError::InvalidArgument("a".into()).message(), "a");
}

#[test]
fn a_raw_text_the_decoder_cannot_handle_is_reported() {
    let unpack = DeserializeOptions { max_depth: 64, unpack_raw: true };
    assert!(try_deserialize_line(b"r=r:\"abcdef\"", &unpack).is_none());
    assert!(try_deserialize_line(b"r=r:\"abcdef\"", &DeserializeOptions::default()).is_some());
    assert!(!dump_is_readable(b"a=i:1\nr=r:\"abcdef\"\n", &unpack));
    assert!(dump_is_readable(b"a=i:1\nr=r:\"HelloWorld\"\n", &unpack));
    assert!(dump_is_readable(b"a=i:1\nr=r:\"abcdef\"\n", &DeserializeOptions::default()));
}

#[test]
fn can_unpack_tells_whether_unpack_may_be_called() {
    assert!(!RawData::from_encoded("abcdef".to_string()).can_unpack());
    assert!(RawData::from_encoded("HelloWorld".to_string()).can_unpack());
    assert!(RawData::from_encoded("ab~de".to_string()).can_unpack());
    assert!(RawData::from_bytes(vec![1, 2, 3]).can_unpack());
    assert!(RawData::from_bytes(vec![]).can_unpack());
}

#[test]
fn a_payload_is_never_packed_and_unpacked_at_once() {
    let mut raw = RawData::from_bytes(vec![9u8, 8, 7, 6, 5]);
    assert!(raw.is_unpacked() && !raw.is_packed());
    raw.pack();
    assert!(raw.is_packed() && !raw.is_unpacked());
    raw.unpack().unwrap();
    assert!(raw.is_unpacked() && !raw.is_packed());
    let empty = RawData::from_bytes(vec![]);
    assert!(!empty.is_packed() && !empty.is_unpacked());
}

#[test]
fn an_unterminated_string_runs_to_the_end_of_the_line() {
    let c = parse("s=s:\"abc,t=i:1").unwrap();
    assert_eq!(c.len(), 1);
    match c.get("s") {
        Some(FonValue::String(s)) => assert_eq!(s.as_str(), "abc,t=i:1"),
        _ => panic!("s"),
    }
}

#[test]
fn a_dump_that_is_not_utf8_reports_it_when_no_earlier_line_fails() {
    for threads in [1, 2, 8] {
        match deserialize_dump_from_bytes(b"a=i:1\nb=i:2\n\xff\nc=i:3\n", threads, &DeserializeOptions::default()) {
            Err(FonError::Parse(m)) => assert_eq!(m, "Invalid UTF-8 in input"),
            _ => panic!("expected an error"),
        }
        match deserialize_dump_from_bytes(b"a=x:1\n\xff\n", threads, &DeserializeOptions::default()) {
            Err(FonError::Parse(m)) => assert!(m == "Invalid UTF-8 in input" || m == "Unknown type"),
            _ => panic!("expected an error"),
        }
    }
}

#[test]
fn a_dump_read_from_text_lists_its_records_in_order() {
    let dump = deserialize_dump_from_bytes(b"a=i:0\nb=i:1\nc=i:2\n", 2, &DeserializeOptions::default()).unwrap();
    let ids: Vec<u64> = dump.iter().iter().map(|(id, _)| *id).collect();
    assert_eq!(ids, vec![0, 1, 2]);
    let lines = serialize_dump_lines(&dump, 2);
    assert_eq!(lines, vec!["a=i:0".to_string(), "b=i:1".to_string(), "c=i:2".to_string()]);
}

#[test]
fn a_large_sparse_dump_is_written_in_order_of_id() {
    let mut dump = FonDump::new();
    for i in (0..20000u64).rev() {
        dump.add(i * 3, record(vec![("n", FonValue::ULong(i * 3))]));
    }
    let lines = serialize_dump_lines(&dump, 4);
    assert_eq!(lines.len(), 20000);
    for (k, line) in lines.iter().enumerate() {
        assert_eq!(line, &format!("n=g:{}", k as u64 * 3));
    }
}

#[test]
fn a_line_that_is_not_utf8_is_refused_before_its_payload_is_read() {
    let unpack = DeserializeOptions { max_depth: 64, unpack_raw: true };
    let text = b"a=r:\"1\"\xff";
    assert!(dump_is_readable(text, &unpack));
    for threads in [1, 4] {
        match deserialize_dump_from_bytes(text, threads, &unpack) {
            Err(FonError::Parse(m)) => assert_eq!(m, "Invalid UTF-8 in input"),
            _ => panic!("expected an error"),
        }
    }
    assert!(!dump_is_readable(b"a=r:\"1\"\n\xff\n", &unpack));
}

fn value_text(v: &FonValue) -> Vec<u8> {
    let mut out = Vec::new();
    serialize_value(&mut out, v);
    out
}

#[test]
fn one_value_written_reads_back_as_itself() {
    let nested = || {
        record(vec![
            ("k", FonValue::Int(-3)),
            ("s", FonValue::String("a \"b\" {c},\n".into())),
            ("inner", FonValue::Object(Box::new(record(vec![("x", FonValue::UIntArray(vec![1, 2]))])))),
        ])
    };
    let values = vec![
        FonValue::Int(42),
        FonValue::ULong(u64::MAX),
        FonValue::String("tab\there".into()),
        FonValue::LongArray(vec![-1, 0, i64::MAX]),
        FonValue::Bool(true),
        FonValue::Object(Box::new(nested())),
        FonValue::ObjectArray(vec![Box::new(nested()), Box::new(FonCollection::new())]),
    ];
    for v in values {
        let out = value_text(&v);
        match parse_value(&out, v.type_char(), 0, &DeserializeOptions::default()) {
            Ok((w, n)) => {
                assert_eq!(n, out.len());
                assert_eq!(w.type_char(), v.type_char());
                assert_eq!(value_text(&w), out);
            }
            Err(Fault::Error(e)) => panic!("unexpected error: {}", e.message()),
            Err(Fault::Aborts) => panic!("unexpected abort"),
        }
    }
}

use astrors::datatypes::PrimitiveParser;
use astrors::datatypes::PrimitiveWriter;
use astrors::datatypes::BooleanType;
use astrors::datatypes::Int16Type;
use astrors::datatypes::Int32Type;
use astrors::datatypes::Int64Type;
use astrors::datatypes::Int8Type;
use astrors::datatypes::UInt16Type;
use astrors::datatypes::UInt32Type;
use astrors::datatypes::UInt64Type;
use astrors::datatypes::UInt8Type;
use astrors::datatypes::Utf8Type;
use astrors::datatypes::ListType;

#[test]
fn signed_parsers_read_big_endian() {
    assert_eq!(Int16Type::parse(&[0xff, 0xfe]), Some(-2i16));
    assert_eq!(Int32Type::parse(&[0x00, 0x00, 0x01, 0x00]), Some(256i32));
    assert_eq!(
        Int64Type::parse(&[0x80, 0, 0, 0, 0, 0, 0, 0]),
        Some(i64::MIN)
    );
    assert_eq!(Int8Type::parse(&[0x80]), Some(i8::MIN));
    // extra bytes are ignored, short input is refused
    assert_eq!(Int16Type::parse(&[0x00, 0x07, 0x55]), Some(7i16));
    assert_eq!(Int16Type::parse(&[0x00]), None);
}

#[test]
fn unsigned_parsers_read_big_endian() {
    assert_eq!(UInt16Type::parse(&[0x12, 0x34]), Some(0x1234u16));
    assert_eq!(UInt32Type::parse(&[0, 0, 0xff, 0]), Some(0xff00u32));
    assert_eq!(
        UInt64Type::parse(&[0, 0, 0, 0, 0, 0, 0, 9]),
        Some(9u64)
    );
    assert_eq!(UInt8Type::parse(&[250]), Some(250u8));
    assert_eq!(UInt32Type::parse(&[1, 2, 3]), None);
}

#[test]
fn boolean_parser_reads_nonzero_as_true() {
    assert_eq!(BooleanType::parse(&[0]), Some(false));
    assert_eq!(BooleanType::parse(&[1]), Some(true));
    assert_eq!(BooleanType::parse(&[84]), Some(true));
    assert_eq!(BooleanType::parse(&[]), None);
}

#[test]
fn text_parser_reads_utf8() {
    assert_eq!(Utf8Type::parse(b"hello"), Some("hello".to_string()));
    assert_eq!(Utf8Type::parse(&[0xff, 0xfe]), None);
}

#[test]
fn writers_mirror_parsers() {
    assert_eq!(Int16Type::write(-2), vec![0xff, 0xfe]);
    assert_eq!(Int32Type::write(256), vec![0, 0, 1, 0]);
    assert_eq!(Int64Type::write(i64::MIN), vec![0x80, 0, 0, 0, 0, 0, 0, 0]);
    assert_eq!(Int8Type::write(-1), vec![0xff]);
    assert_eq!(UInt16Type::write(0x1234), vec![0x12, 0x34]);
    assert_eq!(UInt32Type::write(0xff00), vec![0, 0, 0xff, 0]);
    assert_eq!(UInt64Type::write(9), vec![0, 0, 0, 0, 0, 0, 0, 9]);
    assert_eq!(UInt8Type::write(250), vec![250]);
    assert_eq!(BooleanType::write(true), vec![1]);
    assert_eq!(BooleanType::write(false), vec![0]);
    assert_eq!(Utf8Type::write("ok".to_string()), b"ok".to_vec());
}

#[test]
fn parse_write_round_trip() {
    for v in [i16::MIN, -1, 0, 1, i16::MAX] {
        assert_eq!(Int16Type::parse(&Int16Type::write(v)), Some(v));
    }
    for v in [i32::MIN, -1, 0, 7, i32::MAX] {
        assert_eq!(Int32Type::parse(&Int32Type::write(v)), Some(v));
    }
    for v in [u64::MIN, 1, u64::MAX] {
        assert_eq!(UInt64Type::parse(&UInt64Type::write(v)), Some(v));
    }
    let s = "spectrum".to_string();
    assert_eq!(Utf8Type::parse(&Utf8Type::write(s.clone())), Some(s));
}

#[test]
fn list_round_trip() {
    let items = vec!["alpha".to_string(), "".to_string(), "galaxy survey".to_string()];
    let bytes = ListType::write(items.clone());
    // each element: a four-byte length field, then the text
    assert_eq!(bytes.len(), 4 + 5 + 4 + 0 + 4 + 13);
    assert_eq!(ListType::parse(&bytes), Some(items));
}

#[test]
fn list_length_fields_are_single_precision() {
    let bytes = ListType::write(vec!["abcde".to_string()]);
    // the length 5 as a single-precision bit pattern, big-endian
    assert_eq!(&bytes[0..4], &5.0f32.to_be_bytes());
    assert_eq!(&bytes[4..9], b"abcde");
}

#[test]
fn list_rejects_malformed_fields() {
    // a truncated length field
    assert_eq!(ListType::parse(&[0x40, 0x40]), None);
    // a length field no list ever writes (negative float)
    let mut bad = Vec::new();
    bad.extend_from_slice(&(-1.0f32).to_be_bytes());
    assert_eq!(ListType::parse(&bad), None);
    // a length running past the end of the bytes
    let mut short = Vec::new();
    short.extend_from_slice(&5.0f32.to_be_bytes());
    short.extend_from_slice(b"abc");
    assert_eq!(ListType::parse(&short), None);
    // the empty list is the empty byte string
    assert_eq!(ListType::parse(&[]), Some(Vec::new()));
}

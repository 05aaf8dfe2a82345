use astrors::ascii::format_i64;
use astrors::ascii::format_u64;
use astrors::ascii::parse_int_text;
use astrors::ascii::trim_spaces;
use astrors::ascii::right_justify;
use astrors::ascii::left_justify;
use astrors::ascii::normalize_scientific;
use astrors::cell::CellValue;
use astrors::column::format_field;
use astrors::column::parse_field;
use astrors::format::parse_ascii_format;

#[test]
fn decimal_formatting() {
    assert_eq!(format_u64(0), b"0".to_vec());
    assert_eq!(format_u64(90210), b"90210".to_vec());
    assert_eq!(format_i64(-17), b"-17".to_vec());
    assert_eq!(format_i64(i64::MIN), b"-9223372036854775808".to_vec());
    assert_eq!(format_i64(i64::MAX), b"9223372036854775807".to_vec());
}

#[test]
fn integer_field_parsing() {
    assert_eq!(parse_int_text(b"  42  "), Some(42));
    assert_eq!(parse_int_text(b"-7"), Some(-7));
    assert_eq!(parse_int_text(b"+8"), Some(8));
    assert_eq!(parse_int_text(b"0009"), Some(9));
    assert_eq!(parse_int_text(b""), None);
    assert_eq!(parse_int_text(b"   "), None);
    assert_eq!(parse_int_text(b"4 2"), None);
    assert_eq!(parse_int_text(b"12a"), None);
    assert_eq!(parse_int_text(b"99999999999999999999"), None);
    assert_eq!(parse_int_text(b"-9223372036854775808"), Some(i64::MIN));
}

#[test]
fn trimming_and_justifying() {
    assert_eq!(trim_spaces(b"  mid dle  "), b"mid dle".to_vec());
    assert_eq!(trim_spaces(b"     "), Vec::<u8>::new());
    assert_eq!(right_justify(&b"42".to_vec(), 5), b"   42".to_vec());
    assert_eq!(left_justify(&b"ab".to_vec(), 5), b"ab   ".to_vec());
}

#[test]
fn field_formatting_by_format() {
    let int_fmt = parse_ascii_format("I6").unwrap();
    let out = format_field(&CellValue::Int(-42), &int_fmt).unwrap();
    assert_eq!(out, b"   -42".to_vec());

    let txt_fmt = parse_ascii_format("A6").unwrap();
    let out = format_field(&CellValue::Text(b"hi".to_vec()), &txt_fmt).unwrap();
    assert_eq!(out, b"hi    ".to_vec());

    let flt_fmt = parse_ascii_format("E10.3").unwrap();
    let out = format_field(&CellValue::Text(b"1.5E2".to_vec()), &flt_fmt).unwrap();
    assert_eq!(out, b"     1.5E2".to_vec());

    assert!(format_field(&CellValue::Int(1234567), &int_fmt).is_err());
}

#[test]
fn field_parsing_by_format() {
    let int_fmt = parse_ascii_format("I6").unwrap();
    assert_eq!(parse_field(b"   -42", &int_fmt), Some(CellValue::Int(-42)));
    assert_eq!(parse_field(b"  oops", &int_fmt), None);
    assert_eq!(parse_field(b"99999999999", &int_fmt), None);

    let txt_fmt = parse_ascii_format("A6").unwrap();
    assert_eq!(
        parse_field(b"hi    ", &txt_fmt),
        Some(CellValue::Text(b"hi".to_vec()))
    );
}

#[test]
fn scientific_normalization() {
    // the zero artifact collapses
    assert_eq!(normalize_scientific(&b"0e0".to_vec(), 10), b"0.0".to_vec());
    // the exponent letter is uppercased
    assert_eq!(normalize_scientific(&b"1.5e7".to_vec(), 10), b"1.5E7".to_vec());
    // truncation never ends on a bare exponent marker
    assert_eq!(normalize_scientific(&b"1.234e5".to_vec(), 6), b"1.234".to_vec());
    // ... nor on a trailing decimal point
    assert_eq!(normalize_scientific(&b"1.23e4".to_vec(), 2), b"1".to_vec());
    // short fields pass through
    assert_eq!(normalize_scientific(&b"2.5e-3".to_vec(), 10), b"2.5E-3".to_vec());
}

#[test]
fn compress_random_image() {
}

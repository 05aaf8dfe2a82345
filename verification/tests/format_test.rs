use astrors::format::parse_binary_format;
use astrors::format::parse_ascii_format;
use astrors::format::parse_format;
use astrors::format::byte_value_from_str;
use astrors::format::get_data_bytes_size;
use astrors::format::get_first_letter;
use astrors::format::TableKind;
use astrors::format::TypeCode;
use astrors::FitsError;

#[test]
fn parse_simple_float() {
    let fs = parse_binary_format("1E").unwrap();
    assert_eq!(fs.repeat_count, 1);
    assert!(matches!(fs.type_code, TypeCode::Float32));
    assert_eq!(fs.element_width, 4);
    assert_eq!(fs.cell_width, 4);
    assert!(fs.heap_elem.is_none());
}

#[test]
fn parse_repeated_double() {
    let fs = parse_binary_format("10D").unwrap();
    assert_eq!(fs.repeat_count, 10);
    assert!(matches!(fs.type_code, TypeCode::Float64));
    assert_eq!(fs.cell_width, 80);
}

#[test]
fn parse_char_run() {
    let fs = parse_binary_format("48A").unwrap();
    assert_eq!(fs.repeat_count, 48);
    assert!(matches!(fs.type_code, TypeCode::Char));
    assert_eq!(fs.element_width, 1);
    assert_eq!(fs.cell_width, 48);
}

#[test]
fn parse_descriptor_with_max() {
    let fs = parse_binary_format("1PJ(100)").unwrap();
    assert_eq!(fs.repeat_count, 1);
    assert!(matches!(fs.type_code, TypeCode::ArrayDescriptor32));
    assert_eq!(fs.element_width, 8);
    assert_eq!(fs.cell_width, 8);
    assert!(matches!(fs.heap_elem, Some(TypeCode::Int32)));
}

#[test]
fn parse_descriptor_without_max() {
    let fs = parse_binary_format("1QK").unwrap();
    assert!(matches!(fs.type_code, TypeCode::ArrayDescriptor64));
    assert_eq!(fs.element_width, 16);
    assert!(matches!(fs.heap_elem, Some(TypeCode::Int64)));
}

#[test]
fn parse_default_repeat() {
    let fs = parse_binary_format("J").unwrap();
    assert_eq!(fs.repeat_count, 1);
    assert_eq!(fs.cell_width, 4);
}

#[test]
fn reject_bad_tokens() {
    assert_eq!(parse_binary_format(""), Err(FitsError::InvalidFormat));
    assert_eq!(parse_binary_format("Z"), Err(FitsError::InvalidFormat));
    assert_eq!(parse_binary_format("12"), Err(FitsError::InvalidFormat));
    assert_eq!(parse_binary_format("3E7"), Err(FitsError::InvalidFormat));
    assert_eq!(parse_binary_format("1P"), Err(FitsError::InvalidFormat));
    assert_eq!(parse_binary_format("1PJ("), Err(FitsError::InvalidFormat));
    assert_eq!(parse_binary_format("1PJ()"), Err(FitsError::InvalidFormat));
}

#[test]
fn parse_ascii_integer_field() {
    let fs = parse_ascii_format("I12").unwrap();
    assert!(matches!(fs.type_code, TypeCode::Int32));
    assert_eq!(fs.cell_width, 12);
    assert_eq!(fs.element_width, 1);
}

#[test]
fn parse_ascii_float_with_decimals() {
    let fs = parse_ascii_format("E15.7").unwrap();
    assert!(matches!(fs.type_code, TypeCode::Float32Text));
    assert_eq!(fs.cell_width, 15);
    let fd = parse_ascii_format("D25.17").unwrap();
    assert!(matches!(fd.type_code, TypeCode::Float64Text));
    assert_eq!(fd.cell_width, 25);
}

#[test]
fn parse_ascii_text_field() {
    let fs = parse_format(TableKind::Ascii, "A8").unwrap();
    assert!(matches!(fs.type_code, TypeCode::CharText));
    assert_eq!(fs.cell_width, 8);
}

#[test]
fn reject_ascii_bad_tokens() {
    assert!(parse_ascii_format("").is_err());
    assert!(parse_ascii_format("I").is_err());
    assert!(parse_ascii_format("I12.3").is_err());
    assert!(parse_ascii_format("A8.2").is_err());
    assert!(parse_ascii_format("X4").is_err());
    assert!(parse_ascii_format("I0").is_err());
}

#[test]
fn element_sizes_by_letter() {
    assert_eq!(byte_value_from_str("L"), 1);
    assert_eq!(byte_value_from_str("X"), 1);
    assert_eq!(byte_value_from_str("B"), 1);
    assert_eq!(byte_value_from_str("I"), 2);
    assert_eq!(byte_value_from_str("J"), 4);
    assert_eq!(byte_value_from_str("K"), 8);
    assert_eq!(byte_value_from_str("A"), 1);
    assert_eq!(byte_value_from_str("E"), 4);
    assert_eq!(byte_value_from_str("D"), 8);
    assert_eq!(byte_value_from_str("C"), 8);
    assert_eq!(byte_value_from_str("M"), 16);
    assert_eq!(byte_value_from_str("P"), 8);
    assert_eq!(byte_value_from_str("Q"), 16);
}

#[test]
fn cell_sizes_with_repeat() {
    assert_eq!(get_data_bytes_size("10E"), 40);
    assert_eq!(get_data_bytes_size("48A"), 48);
    assert_eq!(get_data_bytes_size("E"), 4);
    assert_eq!(get_data_bytes_size("2K"), 16);
}

#[test]
fn first_letter_scan() {
    assert_eq!(get_first_letter("10E"), Some(b'E'));
    assert_eq!(get_first_letter("48A"), Some(b'A'));
    assert_eq!(get_first_letter("1PJ(100)"), Some(b'P'));
    assert_eq!(get_first_letter("123"), None);
    assert_eq!(get_first_letter(""), None);
}

//! Failure behaviour: malformed documents, trailing data, bad escapes, and
//! shape mismatches while decoding.

use vayload_kit::error::Error;
use vayload_kit::from_str;
use vayload_kit::parse_value;

#[test]
fn test_error_invalid_json() {
    assert!(parse_value("").is_err());
    assert!(parse_value("{").is_err());
    assert!(parse_value("[1, 2").is_err());
}

#[test]
fn test_error_trailing_data() {
    assert!(parse_value("42 extra").is_err());
}

#[test]
fn test_error_invalid_escape() {
    assert!(parse_value(r#""\q""#).is_err());
}

#[test]
fn empty_input_is_unexpected_eof() {
    assert_eq!(parse_value(""), Err(Error::UnexpectedEof));
}

#[test]
fn trailing_data_names_its_position() {
    assert_eq!(parse_value("42 extra"), Err(Error::TrailingData(3)));
}

#[test]
fn unclosed_object_is_unexpected_eof() {
    assert_eq!(parse_value("{"), Err(Error::UnexpectedEof));
}

#[test]
fn unclosed_array_is_unexpected_eof() {
    assert_eq!(parse_value("[1, 2"), Err(Error::UnexpectedEof));
}

#[test]
fn bad_escape_names_its_character() {
    assert_eq!(parse_value(r#""\q""#), Err(Error::InvalidEscape('q')));
}

#[test]
fn lone_surrogate_is_invalid_unicode() {
    assert_eq!(parse_value(r#""\uD800""#), Err(Error::InvalidUnicode(0xD800)));
}

#[test]
fn null_escape_before_digit_is_invalid() {
    assert_eq!(parse_value(r#""\01""#), Err(Error::InvalidEscape('0')));
}

#[test]
fn bare_newline_in_string_is_rejected() {
    assert!(matches!(parse_value("\"a\nb\""), Err(Error::UnexpectedChar('\n', _))));
    assert!(matches!(parse_value("'a\nb'"), Err(Error::UnexpectedChar('\n', _))));
}

#[test]
fn broken_keyword_is_unexpected_char() {
    assert_eq!(parse_value("nul"), Err(Error::UnexpectedChar('n', 0)));
    assert_eq!(parse_value("Infinit"), Err(Error::UnexpectedChar('I', 0)));
    assert_eq!(parse_value("Nan"), Err(Error::UnexpectedChar('N', 0)));
}

#[test]
fn empty_number_is_invalid() {
    assert_eq!(parse_value("-"), Err(Error::InvalidNumber("-".to_string())));
    assert_eq!(parse_value("."), Err(Error::InvalidNumber(".".to_string())));
    assert_eq!(parse_value("1e"), Err(Error::InvalidNumber("1e".to_string())));
    assert_eq!(parse_value("0x"), Err(Error::InvalidNumber("".to_string())));
}

#[test]
fn missing_colon_is_expected_error() {
    assert_eq!(parse_value("{a 1}"), Err(Error::Expected(':', Some('1'))));
}

#[test]
fn parser_depth_guard_stops_runaway_nesting() {
    let deep = "[".repeat(600);
    assert_eq!(
        parse_value(&deep),
        Err(Error::Custom("Recursion limit exceeded".to_string()))
    );
    let shallow = format!("{}1{}", "[".repeat(500), "]".repeat(500));
    assert!(parse_value(&shallow).is_ok());
}

#[test]
fn decoding_object_into_sequence_is_type_mismatch() {
    let r: Result<Vec<i32>, Error> = from_str("{a: 1}");
    assert_eq!(r, Err(Error::TypeMismatch { expected: "array", got: "object" }));
}

#[test]
fn decoding_string_into_bool_is_type_mismatch() {
    let r: Result<bool, Error> = from_str("'yes'");
    assert_eq!(r, Err(Error::TypeMismatch { expected: "bool", got: "string" }));
}

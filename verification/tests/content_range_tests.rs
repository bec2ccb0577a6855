use std::str::FromStr;

use lockbox::content_range::{ContentRange, Range};

#[test]
fn test_valid_content_range_with_size() {
    let input = "bytes 0-499/1234";
    let expected = ContentRange { start: 0, end: 499, length: Some(1234) };
    let result = ContentRange::from_str(input).unwrap();
    assert_eq!(result, expected);
}

#[test]
fn test_valid_content_range_without_size() {
    let input = "bytes 0-499/*";
    let expected = ContentRange { start: 0, end: 499, length: None };
    let result = ContentRange::from_str(input).unwrap();
    assert_eq!(result, expected);
}

#[test]
fn test_invalid_content_range_no_bytes() {
    let input = "0-499/1234";
    assert!(ContentRange::from_str(input).is_err());
}

#[test]
fn test_invalid_content_range_missing_dash() {
    let input = "bytes 0499/1234";
    assert!(ContentRange::from_str(input).is_err());
}

#[test]
fn test_invalid_content_range_missing_slash() {
    let input = "bytes 0-4991234";
    assert!(ContentRange::from_str(input).is_err());
}

#[test]
fn test_invalid_content_range_non_numeric() {
    let input = "bytes 0-abc/1234";
    assert!(ContentRange::from_str(input).is_err());
}

#[test]
fn test_invalid_content_range_size_non_numeric() {
    let input = "bytes 0-499/abc";
    assert!(ContentRange::from_str(input).is_err());
}

#[test]
fn test_invalid_content_range_incomplete_range() {
    let input = "bytes 0-/1234";
    assert!(ContentRange::from_str(input).is_err());
}

#[test]
fn test_invalid_content_range_empty_string() {
    let input = "";
    assert!(ContentRange::from_str(input).is_err());
}

#[test]
fn test_invalid_content_range_unexpected_whitespace() {
    let input = "bytes 0 - 499 / 1234";
    assert!(ContentRange::from_str(input).is_err());
}

#[test]
fn test_valid_range() {
    let range = "bytes=100-200".parse::<Range>().unwrap();
    assert_eq!(range, Range { start: 100, end: 200 });
}

#[test]
fn test_valid_range_single_byte() {
    let range = "bytes=50-50".parse::<Range>().unwrap();
    assert_eq!(range, Range { start: 50, end: 50 });
}

#[test]
fn test_invalid_prefix() {
    let result = "100-200".parse::<Range>();
    assert!(result.is_err());
}

#[test]
fn test_invalid_format_missing_end() {
    let result = "bytes=100-".parse::<Range>();
    assert!(result.is_err());
}

#[test]
fn test_invalid_format_missing_start() {
    let result = "bytes=-200".parse::<Range>();
    assert!(result.is_err());
}

#[test]
fn test_invalid_format_no_dash() {
    let result = "bytes=100200".parse::<Range>();
    assert!(result.is_err());
}

#[test]
fn test_invalid_start_not_a_number() {
    let result = "bytes=abc-200".parse::<Range>();
    assert!(result.is_err());
}

#[test]
fn test_invalid_end_not_a_number() {
    let result = "bytes=100-xyz".parse::<Range>();
    assert!(result.is_err());
}

#[test]
fn test_zero_range() {
    let range = "bytes=0-0".parse::<Range>().unwrap();
    assert_eq!(range, Range { start: 0, end: 0 });
}

#[test]
fn test_large_numbers() {
    let range = "bytes=9223372036854775806-9223372036854775807".parse::<Range>().unwrap();
    assert_eq!(range, Range { start: 9223372036854775806, end: 9223372036854775807 });
}

#[test]
fn test_negative_numbers() {
    let result = "bytes=-100--200".parse::<Range>();
    assert!(result.is_err());
}

#[test]
fn test_content_range_overflowing_number() {
    // one past u64::MAX must be refused, exactly as str::parse would
    let result = "bytes=18446744073709551616-18446744073709551617".parse::<Range>();
    assert!(result.is_err());
}

#[test]
fn test_range_plus_sign_accepted() {
    let range = "bytes=+100-+200".parse::<Range>().unwrap();
    assert_eq!(range, Range { start: 100, end: 200 });
}

#[test]
fn test_format_content_range_round() {
    let cr = ContentRange { start: 10, end: 250, length: Some(1234) };
    let text = lockbox::content_range::format_content_range(&cr);
    assert_eq!(text, "bytes 10-250/1234");
    let back = ContentRange::from_str(&text).unwrap();
    assert_eq!(back, cr);
    let open_ended = ContentRange { start: 0, end: 9, length: None };
    assert_eq!(lockbox::content_range::format_content_range(&open_ended), "bytes 0-9/*");
}

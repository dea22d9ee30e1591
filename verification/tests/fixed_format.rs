//! Decimal parsing and rendering of micro-unit values.

use mkfiles::fixed::{format_fixed, parse_decimal_bytes, VAL_LIMIT};

#[test]
fn parse_plain_decimal() {
    assert_eq!(parse_decimal_bytes(b"12.5"), Some(12_500_000));
    assert_eq!(parse_decimal_bytes(b"0.000001"), Some(1));
    assert_eq!(parse_decimal_bytes(b"7"), Some(7_000_000));
    assert_eq!(parse_decimal_bytes(b"4.000000"), Some(4_000_000));
}

#[test]
fn parse_signed_decimal() {
    assert_eq!(parse_decimal_bytes(b"-3.25"), Some(-3_250_000));
    assert_eq!(parse_decimal_bytes(b"+2.5"), Some(2_500_000));
    assert_eq!(parse_decimal_bytes(b"-0.000001"), Some(-1));
}

#[test]
fn parse_truncates_extra_fraction_digits() {
    assert_eq!(parse_decimal_bytes(b"1.2345678"), Some(1_234_567));
    assert_eq!(parse_decimal_bytes(b"-1.9999999"), Some(-1_999_999));
}

#[test]
fn parse_rejects_malformed_tokens() {
    assert_eq!(parse_decimal_bytes(b""), None);
    assert_eq!(parse_decimal_bytes(b"abc"), None);
    assert_eq!(parse_decimal_bytes(b"1."), None);
    assert_eq!(parse_decimal_bytes(b".5"), None);
    assert_eq!(parse_decimal_bytes(b"1e5"), None);
    assert_eq!(parse_decimal_bytes(b"1.2.3"), None);
    assert_eq!(parse_decimal_bytes(b"--1"), None);
    assert_eq!(parse_decimal_bytes(b"1 2"), None);
}

#[test]
fn parse_rejects_values_over_the_limit() {
    assert_eq!(parse_decimal_bytes(b"1000000000000"), Some(VAL_LIMIT));
    assert_eq!(parse_decimal_bytes(b"1000000000000.000001"), None);
    assert_eq!(parse_decimal_bytes(b"9999999999999"), None);
    assert_eq!(parse_decimal_bytes(b"99999999999999999999999999999999999999999999"), None);
}

#[test]
fn format_renders_six_fraction_digits() {
    assert_eq!(format_fixed(12_500_000), b"12.500000".to_vec());
    assert_eq!(format_fixed(0), b"0.000000".to_vec());
    assert_eq!(format_fixed(-1), b"-0.000001".to_vec());
    assert_eq!(format_fixed(4_000_000), b"4.000000".to_vec());
}

#[test]
fn format_then_parse_is_identity() {
    for v in [
        0i64,
        1,
        -1,
        999_999,
        1_000_000,
        -123_456_789,
        VAL_LIMIT,
        -VAL_LIMIT,
        31_415_926_535,
    ] {
        let text = format_fixed(v);
        assert_eq!(parse_decimal_bytes(&text), Some(v));
    }
}

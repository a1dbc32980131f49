//! Hex parsing for the cache-query tooling.

use altius::hex::{parse_hex, HexError};
use altius::provider::AltiusBlockExecutorProvider;

#[test]
fn parses_with_prefix() {
    assert_eq!(parse_hex(b"0x1234ab"), Ok(vec![0x12, 0x34, 0xab]));
}

#[test]
fn parses_without_prefix() {
    assert_eq!(parse_hex(b"deadBEEF"), Ok(vec![0xde, 0xad, 0xbe, 0xef]));
}

#[test]
fn empty_string_gives_no_bytes() {
    assert_eq!(parse_hex(b""), Ok(vec![]));
    assert_eq!(parse_hex(b"0x"), Ok(vec![]));
}

#[test]
fn odd_length_is_rejected() {
    assert_eq!(parse_hex(b"0x123"), Err(HexError::OddLength));
    assert_eq!(parse_hex(b"f"), Err(HexError::OddLength));
}

#[test]
fn non_digit_is_rejected() {
    assert_eq!(parse_hex(b"0x12g4"), Err(HexError::InvalidDigit));
    assert_eq!(parse_hex(b"zz"), Err(HexError::InvalidDigit));
}

#[test]
fn odd_length_reported_before_bad_digit() {
    assert_eq!(parse_hex(b"12g"), Err(HexError::OddLength));
}

#[test]
fn mixed_case_digits_decode() {
    assert_eq!(parse_hex(b"0xAb"), Ok(vec![0xab]));
    assert_eq!(parse_hex(b"0xfF"), Ok(vec![0xff]));
}

#[test]
fn provider_construction_and_clone() {
    let p = AltiusBlockExecutorProvider::new(7u64);
    let q = p.clone();
    let _ = format!("{:?} {:?}", p, q);
}

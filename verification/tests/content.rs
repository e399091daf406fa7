//! Telling text from binary content.

use mcp_toolkit::content::{looks_binary, BINARY_SNIFF_BYTES, MAX_OUTPUT_BYTES};

#[test]
fn text_is_not_mistaken_for_binary() {
    assert!(!looks_binary(b"hello world\n"));
    assert!(!looks_binary("h\u{e9}llo".as_bytes()));
    assert!(!looks_binary(b""));
}

#[test]
fn a_nul_byte_marks_content_as_binary() {
    assert!(looks_binary(b"\x00\x01"));
    assert!(looks_binary(b"text then\x00more"));
}

#[test]
fn only_the_first_few_kilobytes_are_inspected() {
    let mut data = vec![b'a'; BINARY_SNIFF_BYTES + 16];
    data.push(0);
    assert!(!looks_binary(&data));
}

#[test]
fn the_last_inspected_byte_still_counts() {
    let mut data = vec![b'a'; BINARY_SNIFF_BYTES];
    data[BINARY_SNIFF_BYTES - 1] = 0;
    assert!(looks_binary(&data));
    let mut later = vec![b'a'; BINARY_SNIFF_BYTES];
    later.push(0);
    assert!(!looks_binary(&later));
}

#[test]
fn the_limits_are_as_documented() {
    assert_eq!(BINARY_SNIFF_BYTES, 8192);
    assert_eq!(MAX_OUTPUT_BYTES, 262144);
}

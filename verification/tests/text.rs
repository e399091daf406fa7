//! Text helpers.

use mcp_toolkit::text::{
    chars_of, contains_text, decimal_text, first_line, join, same_text, string_of, strip_prefix,
    trim,
};

#[test]
fn white_space_is_trimmed_at_both_ends() {
    assert_eq!(trim(" \t\r\n a b \u{3000}"), "a b");
    assert_eq!(trim("\u{85}\u{2028}"), "");
    assert_eq!(trim("\u{200b}x"), "\u{200b}x");
    assert_eq!(trim(""), "");
}

#[test]
fn numbers_are_written_in_decimal() {
    assert_eq!(decimal_text(0), "0");
    assert_eq!(decimal_text(1009), "1009");
    assert_eq!(decimal_text(u128::MAX), "340282366920938463463374607431768211455");
}

#[test]
fn the_first_line_ends_at_the_first_break() {
    assert_eq!(first_line("a\nb"), "a");
    assert_eq!(first_line("a\r\nb"), "a");
    assert_eq!(first_line("a\rb"), "a\rb");
    assert_eq!(first_line("\nb"), "");
    assert_eq!(first_line("a\r"), "a\r");
    assert_eq!(first_line(""), "");
}

#[test]
fn texts_are_joined_and_searched() {
    let parts = ["a".to_string(), "".to_string(), "c".to_string()];
    assert_eq!(join(&parts, ", "), "a, , c");
    assert_eq!(join(&[], ", "), "");
    assert!(contains_text(&parts, "c"));
    assert!(!contains_text(&parts, "d"));
    assert!(same_text("\u{e9}", "\u{e9}"));
    assert!(!same_text("e", "\u{e9}"));
}

#[test]
fn a_prefix_is_taken_off_once() {
    assert_eq!(strip_prefix("aab", "a"), Some("ab"));
    assert_eq!(strip_prefix("ab", "b"), None);
    assert_eq!(strip_prefix("a", "ab"), None);
    assert_eq!(strip_prefix("a", ""), Some("a"));
}

#[test]
fn characters_make_the_text_again() {
    assert_eq!(string_of(&chars_of("h\u{e9}\u{1f600}")), "h\u{e9}\u{1f600}");
}

#[test]
fn every_character_is_trimmed_as_the_standard_library_trims_it() {
    for code in 0..0x11000u32 {
        if let Some(c) = char::from_u32(code) {
            let text = format!("{c}x{c}");
            assert_eq!(trim(&text), text.trim(), "{code:x}");
            let lone = c.to_string();
            assert_eq!(trim(&lone), lone.trim(), "{code:x}");
        }
    }
}

#[test]
fn first_lines_are_those_of_the_standard_library() {
    for text in ["", "a", "a\n", "a\r\n", "\r\n", "a\r", "\n\n", "a\r\r\nb", "\r"] {
        assert_eq!(first_line(text), text.lines().next().unwrap_or_default(), "{text:?}");
    }
}

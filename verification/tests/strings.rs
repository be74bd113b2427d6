//! Text helpers and sorting.

use pine_rs::strings::{
    str_contains, str_join, str_le, str_split, str_starts_with, str_strip_prefix, str_trim_end,
    str_trim_start, to_decimal,
};

#[test]
fn numbers_are_written_in_decimal() {
    assert_eq!(to_decimal(0), "0");
    assert_eq!(to_decimal(7), "7");
    assert_eq!(to_decimal(10), "10");
    assert_eq!(to_decimal(4294967296), "4294967296");
    assert_eq!(to_decimal(18446744073709551615), "18446744073709551615");
}

#[test]
fn splitting_and_joining() {
    assert_eq!(str_split("User/MyLib/1", '/'), vec!["User", "MyLib", "1"]);
    assert_eq!(str_split("", '/'), vec![""]);
    assert_eq!(str_split("a//", '/'), vec!["a", "", ""]);
    let parts = vec!["a".to_string(), "b".to_string(), "c".to_string()];
    assert_eq!(str_join(&parts, ", "), "a, b, c");
    assert_eq!(str_join(&Vec::new(), ", "), "");
}

#[test]
fn white_space_is_that_of_unicode() {
    assert_eq!(str_trim_start(" \t\u{3000}\u{85}x "), "x ");
    assert_eq!(str_trim_end("x\u{2003}\r\n\u{a0}"), "x");
    assert_eq!(str_trim_end("x\u{200b}"), "x\u{200b}");
    for c in ['\u{9}', '\u{b}', ' ', '\u{1680}', '\u{2028}', '\u{202f}', '\u{205f}', 'x', '\u{180e}'] {
        let text = format!("a{c}");
        assert_eq!(str_trim_end(&text), text.trim_end());
    }
}

#[test]
fn searching() {
    assert!(str_contains("//@version=6", "@version="));
    assert!(!str_contains("//@version", "@version="));
    assert!(str_contains("abc", ""));
    assert!(str_starts_with("ta.sma", "ta."));
    assert!(!str_starts_with("ta", "ta."));
    assert_eq!(str_strip_prefix("ta.sma", "ta."), Some("sma".to_string()));
    assert_eq!(str_strip_prefix("math.abs", "ta."), None);
}

#[test]
fn texts_are_ordered_as_strings_are() {
    let words = ["", "a", "a.b", "aa", "b", "ta", "ta.ema", "ta.sma", "é", "😀"];
    for a in words {
        for b in words {
            assert_eq!(str_le(a, b), a <= b, "{a} {b}");
        }
    }
}

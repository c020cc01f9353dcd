//! The search for special bytes of JSON strings.

use praxis::string_scan::{find, find_special};

#[test]
fn finds_closing_quote() {
    let input = b"hello\"";
    assert_eq!(find_special(input, 0), Some((5, b'"')));
}

#[test]
fn finds_backslash() {
    let input = b"he\\llo";
    assert_eq!(find_special(input, 0), Some((2, b'\\')));
}

#[test]
fn finds_raw_control() {
    let input = b"he\x01llo";
    assert_eq!(find_special(input, 0), Some((2, 0x01)));
}

#[test]
fn finds_control_past_vector_width() {
    let mut input = vec![b'a'; 32];
    input.push(0x01);
    input.push(b'b');
    assert_eq!(find_special(&input, 0), Some((32, 0x01)));
}

#[test]
fn none_when_clean() {
    let input = b"hello";
    assert_eq!(find_special(input, 0), None);
}

#[test]
fn search_starts_where_it_is_told() {
    assert_eq!(find_special(b"\"ab\\", 1), Some((3, b'\\')));
    assert_eq!(find_special(b"\"ab", 9), None);
    assert_eq!(find(b"ab\x1f"), Some(2));
    assert_eq!(find(b"ab\x20\x7f"), None);
}

use std::borrow::Cow;

use zrx_id::format::encoding::{decode, encode};
use zrx_id::path::{validate, Error as PathError};

#[test]
fn encode_plain_value_is_borrowed() {
    let value = encode(b"index.md");
    assert!(matches!(value, Cow::Borrowed(_)));
    assert_eq!(value, "index.md");
}

#[test]
fn encode_escapes_delimiter() {
    let value = encode(b"a:b");
    assert!(matches!(value, Cow::Owned(_)));
    assert_eq!(value, "a%3Ab");
    assert_eq!(encode(b":"), "%3A");
    assert!(matches!(encode(b":"), Cow::Owned(_)));
    assert_eq!(encode(b"::x:"), "%3A%3Ax%3A");
}

#[test]
fn encode_escapes_controls_and_non_ascii() {
    assert_eq!(encode(b"a\x01b"), "a%01b");
    assert_eq!(encode(b"\x7f"), "%7F");
    assert_eq!(encode("é".as_bytes()), "%C3%A9");
    assert_eq!(encode(b"a%41 b"), "a%41 b");
}

#[test]
fn encode_empty_is_borrowed() {
    let value = encode(b"");
    assert!(matches!(value, Cow::Borrowed(_)));
    assert_eq!(value, "");
}

#[test]
fn decode_reverses_encode() {
    assert_eq!(decode(b"a%3Ab"), "a:b");
    assert_eq!(decode(b"%C3%A9"), "é");
    assert_eq!(decode(b"plain"), "plain");
    assert_eq!(decode(b"%3a"), ":");
}

#[test]
fn decode_keeps_invalid_escapes() {
    assert_eq!(decode(b"%zz"), "%zz");
    assert_eq!(decode(b"100%"), "100%");
    assert_eq!(decode(b"%4"), "%4");
}

#[test]
fn decode_replaces_invalid_utf8() {
    assert_eq!(decode(b"%FF"), "\u{FFFD}");
    assert_eq!(decode(b"a%C3"), "a\u{FFFD}");
}

#[test]
fn validate_accepts_and_rejects() {
    assert_eq!(validate("docs/index.md"), Ok("docs/index.md"));
    assert_eq!(validate("docs\\index.md"), Err(PathError::Backslash));
    assert_eq!(validate(""), Ok(""));
}

#[test]
fn decode_with_escape_is_owned_and_never_empty() {
    assert!(matches!(decode(b"%41"), Cow::Owned(ref s) if s == "A"));
    assert!(matches!(decode(b"%00"), Cow::Owned(ref s) if s == "\u{0}"));
    assert_eq!(decode(b"%FF").chars().count(), 1);
}

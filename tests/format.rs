use zrx_id::format::container::Container;
use zrx_id::format::error::Error;
use zrx_id::format::Format;

#[test]
fn format_new_has_empty_spans() {
    let format = Format::<3>::new();
    assert_eq!(format.as_str(), "::");
    for i in 0..3 {
        assert_eq!(format.get(i), "");
    }
}

#[test]
fn format_set_and_get() {
    let mut format = Format::<3>::new();
    format.set(0, "a").unwrap();
    format.set(1, "b").unwrap();
    format.set(2, "c").unwrap();
    assert_eq!(format.as_str(), "a:b:c");
    assert_eq!(format.get(0), "a");
    assert_eq!(format.get(1), "b");
    assert_eq!(format.get(2), "c");
}

#[test]
fn format_set_shifts_later_spans() {
    let mut format = Format::<4>::parse("ab:cd:ef:gh").unwrap();
    format.set(1, "xyz12").unwrap();
    assert_eq!(format.as_str(), "ab:xyz12:ef:gh");
    assert_eq!(format.get(0), "ab");
    assert_eq!(format.get(1), "xyz12");
    assert_eq!(format.get(2), "ef");
    assert_eq!(format.get(3), "gh");
    format.set(1, "").unwrap();
    assert_eq!(format.as_str(), "ab::ef:gh");
    assert_eq!(format.get(2), "ef");
    assert_eq!(format.get(3), "gh");
    format.set(3, "z").unwrap();
    assert_eq!(format.as_str(), "ab::ef:z");
}

#[test]
fn format_set_escapes_and_reads_back() {
    let mut format = Format::<3>::new();
    format.set(1, "a:b").unwrap();
    assert_eq!(format.as_str(), ":a%3Ab:");
    assert_eq!(format.get(1), "a:b");
    format.set(1, "plain").unwrap();
    assert_eq!(format.as_str(), ":plain:");
    assert_eq!(format.get(1), "plain");
}

#[test]
fn format_set_too_long_fails_unchanged() {
    let mut format = Format::<3>::parse("a:b:c").unwrap();
    let long = "x".repeat(40_000);
    assert_eq!(format.set(1, &long), Err(Error::Length));
    assert_eq!(format.as_str(), "a:b:c");
    let part = "y".repeat(30_000);
    format.set(0, &part).unwrap();
    format.set(1, &part).unwrap();
    assert_eq!(format.set(2, &"z".repeat(10_000)), Err(Error::Length));
    assert_eq!(format.get(2), "c");
}

#[test]
fn format_parse_splits_spans() {
    let format = Format::<3>::parse("a:b:c").unwrap();
    assert_eq!(format.get(0), "a");
    assert_eq!(format.get(1), "b");
    assert_eq!(format.get(2), "c");
    let parsed: Format<3> = "x::".parse().unwrap();
    assert_eq!(parsed.get(0), "x");
    assert_eq!(parsed.get(1), "");
}

#[test]
fn format_parse_wrong_count_fails() {
    assert_eq!(Format::<3>::parse("a:b").unwrap_err(), Error::Cardinality);
    assert_eq!(Format::<3>::parse("a:b:c:d").unwrap_err(), Error::Cardinality);
    assert_eq!(Format::<3>::parse("").unwrap_err(), Error::Cardinality);
}

#[test]
fn format_parse_too_long_fails() {
    let long = format!("{}::", "x".repeat(70_000));
    assert_eq!(Format::<3>::parse(&long).unwrap_err(), Error::Length);
}

#[test]
fn format_parse_marks_escaped_spans() {
    let format = Format::<3>::parse("a%3Ab:100%:%41").unwrap();
    assert_eq!(format.get(0), "a:b");
    assert_eq!(format.get(1), "100%");
    assert_eq!(format.get(2), "A");
}

#[test]
fn format_equality_is_on_encoded_bytes() {
    let a = Format::<3>::parse("a:b:c").unwrap();
    let b = Format::<3>::parse("a:b:c").unwrap();
    let c = Format::<3>::parse("a:b:d").unwrap();
    assert!(a == b);
    assert!(a != c);
    let mut d = Format::<3>::new();
    d.set(1, "%41").unwrap();
    let e = Format::<3>::parse(":%41:").unwrap();
    assert!(d == e);
    assert_eq!(d.get(1), "%41");
    assert_eq!(e.get(1), "A");
}

#[test]
fn container_splice_replaces_range() {
    let mut buffer: Vec<u8> = Container::from_slice(b"hello world");
    Container::splice(&mut buffer, 6..11, b"there");
    assert_eq!(Container::as_slice(&buffer), b"hello there");
    Container::splice(&mut buffer, 0..5, b"");
    assert_eq!(buffer, b" there");
    Container::splice(&mut buffer, 0..0, b"oh");
    assert_eq!(buffer, b"oh there");
}

#[test]
fn format_order_is_on_encoded_bytes() {
    let a = Format::<3>::parse("b:c:d").unwrap();
    let b = Format::<3>::parse("a:b:c").unwrap();
    assert!(a > b);
    assert!(b < a);
    let c = Format::<3>::parse("a:b:cd").unwrap();
    assert!(b < c);
    assert_eq!(b.partial_cmp(&b), Some(std::cmp::Ordering::Equal));
}

#[test]
fn format_get_borrows_plain_and_owns_decoded_spans() {
    let mut format = Format::<3>::new();
    format.set(0, "plain").unwrap();
    format.set(1, "a:b").unwrap();
    assert!(matches!(format.get(0), std::borrow::Cow::Borrowed("plain")));
    assert!(matches!(format.get(1), std::borrow::Cow::Owned(ref s) if s == "a:b"));
    let parsed = Format::<3>::parse("x:%41:y").unwrap();
    assert!(matches!(parsed.get(1), std::borrow::Cow::Owned(ref s) if s == "A"));
    assert!(matches!(parsed.get(2), std::borrow::Cow::Borrowed("y")));
}

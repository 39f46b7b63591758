use zrx_id::format::error::Error as FormatError;
use zrx_id::path::Error as PathError;
use zrx_id::{Error, Id, ToId};

#[test]
fn new_serializes_to_canonical_form() {
    let id = Id::new("file", "docs", "index.md").unwrap();
    assert_eq!(id.to_string(), "zri:file::docs:index.md:");
    assert_eq!(id.as_str(), "zri:file::docs:index.md:");
}

#[test]
fn parse_reads_components() {
    let id = Id::parse("zri:file::docs:index.md:").unwrap();
    assert_eq!(id.scheme(), "file");
    assert_eq!(id.binding(), None);
    assert_eq!(id.context(), "docs");
    assert_eq!(id.path(), "index.md");
    assert_eq!(id.fragment(), None);
    let full: Id = "zri:git:main:docs:a/b.md:top".parse().unwrap();
    assert_eq!(full.binding().as_deref(), Some("main"));
    assert_eq!(full.fragment().as_deref(), Some("top"));
}

#[test]
fn round_trip_through_string() {
    for (s, c, p) in [("file", "docs", "index.md"), ("git", "a:b", "x%y"), ("s", "c\u{1}", "é/p")] {
        let id = Id::new(s, c, p).unwrap();
        let parsed = Id::parse(&id.to_string()).unwrap();
        assert!(parsed == id);
        assert_eq!(parsed.to_string(), id.to_string());
        assert_eq!(parsed.scheme(), id.scheme());
        assert_eq!(parsed.context(), id.context());
        assert_eq!(parsed.path(), id.path());
    }
}

#[test]
fn new_escapes_components() {
    let id = Id::new("file", "a:b", "c").unwrap();
    assert_eq!(id.to_string(), "zri:file::a%3Ab:c:");
    assert_eq!(id.context(), "a:b");
}

#[test]
fn set_path_escapes_delimiter() {
    let mut id = Id::new("file", "docs", "index.md").unwrap();
    id.set_path("a:b").unwrap();
    assert!(id.as_str().contains("%3A"));
    assert_eq!(id.as_str(), "zri:file::docs:a%3Ab:");
    assert_eq!(id.path(), "a:b");
}

#[test]
fn setters_update_components() {
    let mut id = Id::new("file", "docs", "index.md").unwrap();
    id.set_scheme("git").unwrap();
    id.set_binding("master").unwrap();
    id.set_context("examples").unwrap();
    id.set_path("README.md").unwrap();
    id.set_fragment("anchor").unwrap();
    assert_eq!(id.to_string(), "zri:git:master:examples:README.md:anchor");
    assert_eq!(id.binding().as_deref(), Some("master"));
    assert_eq!(id.fragment().as_deref(), Some("anchor"));
    id.set_binding("").unwrap();
    assert_eq!(id.binding(), None);
}

#[test]
fn setter_rejects_backslash_unchanged() {
    let mut id = Id::new("file", "docs", "index.md").unwrap();
    assert_eq!(id.set_path("a\\b"), Err(Error::Path(PathError::Backslash)));
    assert_eq!(id.to_string(), "zri:file::docs:index.md:");
}

#[test]
fn setter_rejects_too_long_value() {
    let mut id = Id::new("file", "docs", "index.md").unwrap();
    let long = "x".repeat(40_000);
    assert_eq!(id.set_fragment(&long), Err(Error::Format(FormatError::Length)));
    assert_eq!(id.fragment(), None);
}

#[test]
fn new_rejects_backslash() {
    assert_eq!(Id::new("file\\x", "docs", "index.md").unwrap_err(), Error::Path(PathError::Backslash));
    assert_eq!(Id::new("file", "do\\cs", "index.md").unwrap_err(), Error::Path(PathError::Backslash));
}

#[test]
fn new_rejects_empty_required_components() {
    assert_eq!(Id::new("", "docs", "index.md").unwrap_err(), Error::Component("scheme"));
    assert_eq!(Id::new("file", "", "index.md").unwrap_err(), Error::Component("context"));
    assert_eq!(Id::new("file", "docs", "").unwrap_err(), Error::Component("path"));
}

#[test]
fn new_rejects_too_long() {
    let long = "x".repeat(70_000);
    assert_eq!(Id::new("file", "docs", &long).unwrap_err(), Error::Format(FormatError::Length));
}

#[test]
fn parse_rejects_wrong_delimiter_count() {
    assert_eq!(Id::parse("zri:file:docs:index.md:").unwrap_err(), Error::Format(FormatError::Cardinality));
    assert_eq!(Id::parse("zri:file::docs:index.md::").unwrap_err(), Error::Format(FormatError::Cardinality));
}

#[test]
fn parse_rejects_wrong_prefix() {
    assert_eq!(Id::parse("zrs:file::docs:index.md:").unwrap_err(), Error::Prefix);
}

#[test]
fn parse_rejects_empty_required_components() {
    assert_eq!(Id::parse("zri:::docs:index.md:").unwrap_err(), Error::Component("scheme"));
    assert_eq!(Id::parse("zri:file:::index.md:").unwrap_err(), Error::Component("context"));
    assert_eq!(Id::parse("zri:file::docs::").unwrap_err(), Error::Component("path"));
}

#[test]
fn parse_rejects_backslash() {
    assert_eq!(Id::parse("zri:file::docs:a\\b:").unwrap_err(), Error::Path(PathError::Backslash));
}

#[test]
fn parse_decodes_escaped_components() {
    let id = Id::parse("zri:file::docs:a%3Ab:").unwrap();
    assert_eq!(id.path(), "a:b");
    let encoded_tag = Id::parse("%7Ari:file::docs:x:").unwrap();
    assert_eq!(encoded_tag.scheme(), "file");
}

#[test]
fn equality_is_on_encoded_form() {
    let a = Id::parse("zri:file::docs:A:").unwrap();
    let b = Id::parse("zri:file::docs:%41:").unwrap();
    assert_eq!(a.path(), b.path());
    assert!(a != b);
    assert!(a == Id::new("file", "docs", "A").unwrap());
}

#[test]
fn to_id_borrows_or_parses() {
    let id = Id::new("file", "docs", "index.md").unwrap();
    let reference = &id;
    let borrowed = reference.to_id().unwrap();
    assert!(*borrowed == id);
    let parsed = "zri:file::docs:index.md:".to_id().unwrap();
    assert!(*parsed == id);
    assert_eq!("zri:file".to_id().unwrap_err(), Error::Format(FormatError::Cardinality));
}

#[test]
fn identifiers_order_by_encoded_form() {
    let a = Id::new("file", "docs", "a.md").unwrap();
    let b = Id::new("file", "docs", "b.md").unwrap();
    let c = Id::new("git", "docs", "a.md").unwrap();
    assert!(a < b);
    assert!(b < c);
    assert_eq!(a.partial_cmp(&a.clone()), Some(std::cmp::Ordering::Equal));
}

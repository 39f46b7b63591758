use zrx_id::matcher::{Error, Matcher, Selector, ToSelector};
use zrx_id::Id;

fn id() -> Id {
    Id::new("file", "docs", "index.md").unwrap()
}

#[test]
fn selector_matches_markdown_path() {
    let mut builder = Matcher::builder();
    builder.add("zrs::::**/*.md:").unwrap();
    let matcher = builder.build().unwrap();
    assert!(matcher.is_match(&id()).unwrap());
    assert_eq!(matcher.matches(&id()).unwrap(), vec![0]);
}

#[test]
fn matches_reports_matching_selectors_in_order() {
    let mut builder = Matcher::builder();
    builder.add("zrs:git::::").unwrap();
    builder.add("zrs:file::docs::").unwrap();
    builder.add("zrs:::*.rs::").unwrap();
    builder.add("zrs::::*.md:").unwrap();
    builder.add("zrs:::docs:*.md:").unwrap();
    let matcher = builder.build().unwrap();
    assert_eq!(matcher.matches(&id()).unwrap(), vec![1, 3, 4]);
    assert!(matcher.is_match(&id()).unwrap());
    let other = Id::new("git", "src", "lib.rs").unwrap();
    assert_eq!(matcher.matches(&other).unwrap(), vec![0]);
}

#[test]
fn matches_empty_when_a_component_fails() {
    let mut builder = Matcher::builder();
    builder.add("zrs:git::::").unwrap();
    builder.add("zrs:::src::").unwrap();
    let matcher = builder.build().unwrap();
    assert_eq!(matcher.matches(&id()).unwrap(), Vec::<usize>::new());
    // Each component is tested against the patterns of all selectors.
    assert!(matcher.is_match(&id()).unwrap());
}

#[test]
fn absent_optional_component_matches_any_pattern_in_matches() {
    let mut builder = Matcher::builder();
    builder.add("zrs::master:::").unwrap();
    let matcher = builder.build().unwrap();
    assert_eq!(matcher.matches(&id()).unwrap(), vec![0]);
    assert!(!matcher.is_match(&id()).unwrap());
    let mut bound = id();
    bound.set_binding("master").unwrap();
    assert_eq!(matcher.matches(&bound).unwrap(), vec![0]);
    assert!(matcher.is_match(&bound).unwrap());
    bound.set_binding("develop").unwrap();
    assert_eq!(matcher.matches(&bound).unwrap(), Vec::<usize>::new());
    assert!(!matcher.is_match(&bound).unwrap());
}

#[test]
fn wildcard_selector_matches_every_identifier() {
    let mut builder = Matcher::builder();
    builder.add(&Selector::new().unwrap()).unwrap();
    let matcher = builder.build().unwrap();
    let mut full = Id::new("git", "src", "a/b/c.rs").unwrap();
    full.set_binding("main").unwrap();
    full.set_fragment("L10").unwrap();
    for id in [id(), full, Id::new("x", "y", "a:b").unwrap()] {
        assert!(matcher.is_match(&id).unwrap());
        assert_eq!(matcher.matches(&id).unwrap(), vec![0]);
    }
}

#[test]
fn empty_matcher_matches_nothing() {
    let matcher = Matcher::builder().build().unwrap();
    assert!(!matcher.is_match(&id()).unwrap());
    assert_eq!(matcher.matches(&id()).unwrap(), Vec::<usize>::new());
}

#[test]
fn matcher_accepts_identifier_strings() {
    let matcher: Matcher = "zrs:file::docs::".parse().unwrap();
    assert!(matcher.is_match("zri:file::docs:index.md:").unwrap());
    assert_eq!(matcher.matches("zri:file::docs:index.md:").unwrap(), vec![0]);
    assert!(matches!(matcher.is_match("zri:file"), Err(Error::Id(_))));
}

#[test]
fn invalid_glob_is_rejected_and_nothing_added() {
    let mut builder = Matcher::builder();
    assert!(matches!(builder.add("zrs:::[docs::"), Err(Error::Glob(_))));
    builder.add("zrs:::docs::").unwrap();
    let matcher = builder.build().unwrap();
    assert_eq!(matcher.matches(&id()).unwrap(), vec![0]);
}

#[test]
fn invalid_selector_string_is_rejected() {
    let mut builder = Matcher::builder();
    assert!(matches!(builder.add("zri:::::"), Err(Error::Prefix)));
    assert!(matches!(builder.add("zrs::::"), Err(Error::Format(_))));
    assert!(matches!(builder.add("zrs:a\\b::::"), Err(Error::Path(_))));
}

#[test]
fn selector_new_is_all_wildcards() {
    let selector = Selector::new().unwrap();
    assert_eq!(selector.to_string(), "zrs:::::");
    assert_eq!(selector.scheme(), None);
    assert_eq!(selector.binding(), None);
    assert_eq!(selector.context(), None);
    assert_eq!(selector.path(), None);
    assert_eq!(selector.fragment(), None);
}

#[test]
fn selector_setters_and_getters() {
    let mut selector = Selector::new().unwrap();
    selector.set_scheme("file").unwrap();
    selector.set_binding("b").unwrap();
    selector.set_context("docs").unwrap();
    selector.set_path("**/*.md").unwrap();
    selector.set_fragment("f:g").unwrap();
    assert_eq!(selector.to_string(), "zrs:file:b:docs:**/*.md:f%3Ag");
    assert_eq!(selector.scheme().as_deref(), Some("file"));
    assert_eq!(selector.fragment().as_deref(), Some("f:g"));
    let parsed: Selector = "zrs:file:b:docs:**/*.md:f%3Ag".parse().unwrap();
    assert!(parsed == selector);
    assert!(matches!(selector.set_path("a\\b"), Err(Error::Path(_))));
}

#[test]
fn to_selector_borrows_or_parses() {
    let selector = Selector::parse("zrs::::*.md:").unwrap();
    let reference = &selector;
    assert!(*reference.to_selector().unwrap() == selector);
    assert!(*"zrs::::*.md:".to_selector().unwrap() == selector);
}

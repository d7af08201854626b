//! Options, attributes, and the text that they are read from.

use acdc_parser::attributes::{AttributeValue, DocumentAttributes};
use acdc_parser::file_resolver::{DynFileResolver, FileResolver, FileResolverError};
use acdc_parser::options::{build_options, Options, SafeMode};
use acdc_parser::preprocessor::{attribute, conditional};
use acdc_parser::text;
use std::borrow::Cow;
use std::sync::atomic::{AtomicUsize, Ordering};

fn value_of(attributes: &DocumentAttributes<'_>, name: &str) -> Option<String> {
    match attributes.get(name) {
        Some(AttributeValue::String(s)) => Some(s.to_string()),
        Some(AttributeValue::Bool(b)) => Some(b.to_string()),
        Some(AttributeValue::Empty) => Some("-".to_string()),
        None => None,
    }
}

#[test]
fn options_are_put_together() {
    let options = Options::builder()
        .with_safe_mode(SafeMode::Safe)
        .with_timings()
        .with_strict()
        .with_setext()
        .with_attribute("toc", "left")
        .with_attribute("sectnums", true)
        .with_attribute("nothing", ())
        .with_virtual_current_file("dir/main.adoc")
        .build();
    assert_eq!(options.safe_mode, SafeMode::Safe);
    assert!(options.timings && options.strict && options.setext);
    assert_eq!(value_of(&options.document_attributes, "toc").as_deref(), Some("left"));
    assert_eq!(value_of(&options.document_attributes, "sectnums").as_deref(), Some("true"));
    assert_eq!(value_of(&options.document_attributes, "nothing").as_deref(), Some("-"));
    assert_eq!(options.virtual_current_file.as_deref(), Some("dir/main.adoc"));
    assert!(options.file_resolver.is_none());
}

#[test]
fn options_start_from_nothing() {
    for options in [Options::new(), Options::default(), Options::builder().build()] {
        assert_eq!(options.safe_mode, SafeMode::Unsafe);
        assert!(!options.timings && !options.strict && !options.setext);
        assert!(options.virtual_current_file.is_none());
        assert!(!options.document_attributes.contains_key("toc"));
    }
}

#[test]
fn attributes_replace_those_before() {
    let mut attributes = DocumentAttributes::default();
    attributes.insert(Cow::Borrowed("a"), AttributeValue::from("1"));
    let options = Options::with_attributes(attributes.clone());
    assert_eq!(value_of(&options.document_attributes, "a").as_deref(), Some("1"));
    let options =
        Options::builder().with_attribute("b", "2").with_attributes(attributes).build();
    assert!(!options.document_attributes.contains_key("b"));
    assert!(options.document_attributes.contains_key("a"));
    assert!(options.into_static().document_attributes.contains_key("a"));
}

#[test]
fn built_in_attributes_are_not_explicit() {
    let options = Options::builder()
        .with_safe_mode(SafeMode::Server)
        .with_attribute("backend", "docbook")
        .build()
        .with_runtime_builtins();
    let attributes = &options.document_attributes;
    for name in [
        "asciidoctor",
        "asciidoctor-version",
        "safe-mode-name",
        "safe-mode-level",
        "safe-mode-server",
        "backend-html5",
        "basebackend",
        "basebackend-html",
        "filetype",
        "filetype-html",
        "doctype",
        "doctype-article",
    ] {
        assert!(attributes.contains_key(name), "{name}");
        assert!(!attributes.is_explicit(name), "{name}");
    }
    assert!(!attributes.contains_key("safe-mode-unsafe"));
    assert_eq!(value_of(attributes, "safe-mode-name").as_deref(), Some("server"));
    assert_eq!(value_of(attributes, "safe-mode-level").as_deref(), Some("10"));
    assert_eq!(value_of(attributes, "backend").as_deref(), Some("docbook"));
    assert!(attributes.is_explicit("backend"));
}

#[test]
fn a_name_chooses_the_safe_mode() {
    assert_eq!(build_options(Some("secure")).safe_mode, SafeMode::Secure);
    assert_eq!(build_options(Some("server")).safe_mode, SafeMode::Server);
    assert_eq!(build_options(Some("safe")).safe_mode, SafeMode::Safe);
    assert_eq!(build_options(Some("bogus")).safe_mode, build_options(None).safe_mode);
    assert_eq!(SafeMode::from_name("Unsafe"), None);
}

/// Nothing can be read.
struct Nothing;

impl FileResolver for Nothing {
    fn read(&self, path: &str) -> Result<Cow<'_, [u8]>, FileResolverError> {
        Err(FileResolverError::not_found(path))
    }
}

#[test]
fn a_resolver_is_shared() {
    let resolver = DynFileResolver::new(Nothing);
    let options = Options::builder().with_file_resolver(resolver.clone()).build();
    let held = options.file_resolver.as_ref().expect("a resolver");
    assert!(matches!(held.read("x"), Err(FileResolverError::NotFound { .. })));
    assert!(resolver.read("y").is_err());
}

/// Gives the number of files read before.
struct Counting(AtomicUsize);

impl FileResolver for Counting {
    fn read(&self, _path: &str) -> Result<Cow<'_, [u8]>, FileResolverError> {
        Ok(Cow::Owned(vec![self.0.fetch_add(1, Ordering::SeqCst) as u8]))
    }
}

#[test]
fn clones_share_the_resolver() {
    let resolver = DynFileResolver::new(Counting(AtomicUsize::new(0)));
    let builder = Options::builder().with_file_resolver(resolver.clone()).with_strict();
    let options = builder.clone().with_virtual_current_file("v.adoc").build();
    let copy = options.clone();
    assert!(copy.strict && !copy.setext);
    assert_eq!(copy.virtual_current_file.as_deref(), Some("v.adoc"));
    assert_eq!(builder.build().virtual_current_file, None);
    let first = options.file_resolver.as_ref().expect("a resolver");
    let second = copy.file_resolver.as_ref().expect("a resolver");
    let given: Vec<u8> = [&resolver, first, second, &resolver]
        .iter()
        .map(|r| r.read("x").expect("bytes")[0])
        .collect();
    assert_eq!(given, [0, 1, 2, 3]);
}

// ---------------------------------------------------------------------------
// Attributes and conditions.
// ---------------------------------------------------------------------------

#[test]
fn a_default_does_not_replace() {
    let mut attributes = DocumentAttributes::default();
    attributes.insert_default(Cow::Borrowed("a"), AttributeValue::from("1"));
    attributes.insert_default(Cow::Borrowed("a"), AttributeValue::from("2"));
    assert_eq!(value_of(&attributes, "a").as_deref(), Some("1"));
    assert!(!attributes.is_explicit("a"));
    attributes.insert(Cow::Borrowed("a"), AttributeValue::from(true));
    assert_eq!(value_of(&attributes, "a").as_deref(), Some("true"));
    assert!(attributes.is_explicit("a"));
    attributes.remove("a");
    assert!(!attributes.contains_key("a"));
    assert!(attributes.get("a").is_none());
}

#[test]
fn attribute_lines_set_and_unset() {
    let mut attributes = DocumentAttributes::default();
    attribute::parse_line(&mut attributes, ":name: some value");
    assert_eq!(value_of(&attributes, "name").as_deref(), Some("some value"));
    attribute::parse_line(&mut attributes, ":flag:");
    assert!(attributes.contains_key("flag"));
    attribute::parse_line(&mut attributes, ":!flag:");
    assert!(!attributes.contains_key("flag"));
    attribute::parse_line(&mut attributes, ":name!:");
    assert!(!attributes.contains_key("name"));
    attribute::parse_line(&mut attributes, ": no name: x");
    attribute::parse_line(&mut attributes, "text");
    assert!(!attributes.contains_key("no name") && !attributes.contains_key("text"));
}

#[test]
fn conditions_are_read() {
    let mut attributes = DocumentAttributes::default();
    attributes.insert(Cow::Borrowed("a"), AttributeValue::from("1"));
    let truth = |line: &str| conditional::parse_line(line).map(|c| c.is_true(&attributes));
    assert_eq!(truth("ifdef::a[]"), Some(Some(true)));
    assert_eq!(truth("ifdef::b[]"), Some(Some(false)));
    assert_eq!(truth("ifndef::b[]"), Some(Some(true)));
    assert_eq!(truth("ifdef::b,a[]"), Some(Some(true)));
    assert_eq!(truth("ifdef::b+a[]"), Some(Some(false)));
    assert_eq!(truth("ifeval::[1 == 1]"), Some(None));
    assert_eq!(truth("ifdef::[]"), None);
    let one_line = conditional::parse_line("ifdef::a[text]").expect("a condition");
    assert_eq!(one_line.own_text().as_deref(), Some("text"));
    assert!(one_line.closed_by("") && one_line.closed_by("a") && !one_line.closed_by("b"));
    assert_eq!(conditional::parse_endif("endif::a[]").as_deref(), Some("a"));
    assert_eq!(conditional::parse_endif("endif"), None);
}

// ---------------------------------------------------------------------------
// Text.
// ---------------------------------------------------------------------------

#[test]
fn white_space_is_what_it_is_elsewhere() {
    for code in 0..=0x10FFFF_u32 {
        if let Some(c) = char::from_u32(code) {
            assert_eq!(text::is_whitespace(c), c.is_whitespace(), "{code:x}");
        }
    }
}

#[test]
fn text_is_cut_as_elsewhere() {
    for s in ["", " ", "a", " a b\t", "\u{3000}x\u{A0}", "a\r\n", "\n", "a\n\nb\n", "x\r"] {
        assert_eq!(text::trim(s), s.trim());
        assert_eq!(text::trim_start(s), s.trim_start());
        assert_eq!(text::trim_end(s), s.trim_end());
        assert_eq!(text::lines(s), s.lines().collect::<Vec<_>>());
        assert_eq!(text::byte_len(s), s.len());
        for part in ["", "a", " ", "b\t", "a\r"] {
            assert_eq!(text::contains(s, part), s.contains(part), "{s:?} {part:?}");
            assert_eq!(text::starts_with(s, part), s.starts_with(part), "{s:?} {part:?}");
            assert_eq!(text::ends_with(s, part), s.ends_with(part), "{s:?} {part:?}");
        }
    }
}

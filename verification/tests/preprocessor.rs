//! Going through a source: attributes, conditions, and content of other files.

use acdc_parser::attributes::{AttributeValue, DocumentAttributes};
use acdc_parser::error::{Error, Warning};
use acdc_parser::file_resolver::{DynFileResolver, FileResolver, FileResolverError};
use acdc_parser::options::{Options, SafeMode};
use acdc_parser::preprocessor::decode::read_and_decode_file;
use acdc_parser::preprocessor::process::{
    handle_include_result, is_verbatim_delimiter, path_has_parent, process_continuation,
    try_pass_through, Answer, IncludeExpansion, IncludeResult, LeveloffsetRange, Preprocessor,
    PreprocessorResult, PreprocessorState, Progress, Request, SourceRange,
};
use std::borrow::Cow;
use std::collections::HashMap;

fn done(
    input: &str,
    options: &Options<'_>,
    answers: &[Answer],
) -> (PreprocessorResult<'static>, Vec<Warning>) {
    let mut warnings = Vec::new();
    match Preprocessor::process(input, options, answers, &mut warnings) {
        Ok(Progress::Done(result)) => (result.into_owned(), warnings),
        other => panic!("expected an end, got {other:?}"),
    }
}

fn text_of(input: &str) -> String {
    done(input, &Options::default(), &[]).0.text.into_owned()
}

#[test]
fn test_process() {
    let input = ":attribute: value

ifdef::attribute[]
content
endif::[]
";
    assert_eq!(text_of(input), ":attribute: value\n\ncontent\n");
}

#[test]
fn test_good_endif_directive() {
    let input = ":asdf:

ifdef::asdf[]
content
endif::asdf[]";
    assert_eq!(text_of(input), ":asdf:\n\ncontent\n");
}

#[test]
fn test_bad_endif_directive() {
    let input = "ifdef::asdf[]
content
endif::another[]";
    let mut warnings = Vec::new();
    let output = Preprocessor::process(input, &Options::default(), &[], &mut warnings);
    assert!(matches!(output, Err(Error::InvalidConditionalDirective(..))));
    assert_eq!(warnings.len(), 1);
    assert_eq!(warnings[0].message, "attribute mismatch between if and endif directives");
    let place = warnings[0].location.as_ref().expect("place");
    assert_eq!((place.line, place.column, place.file.as_deref()), (3, 1, None));
}

// ---------------------------------------------------------------------------
// Conditions in blocks.
// ---------------------------------------------------------------------------

#[test]
fn ifdef_undefined_var_inside_listing_block_drops_body() {
    let text = text_of(
        "[source,asciidoc]\n----\nifdef::var[]\ncontent that must survive\nendif::[]\n----\n",
    );
    assert!(!text.contains("content that must survive"), "{text}");
    assert!(!text.contains("ifdef::var[]") && !text.contains("endif::[]"), "{text}");
}

#[test]
fn ifdef_defined_var_inside_listing_block_keeps_body() {
    let text = text_of(
        ":var: true\n\n[source,asciidoc]\n----\nifdef::var[]\nliteral body line\nendif::[]\n----\n",
    );
    assert!(text.contains("literal body line"), "{text}");
    assert!(!text.contains("ifdef::var[]") && !text.contains("endif::[]"), "{text}");
}

#[test]
fn ifdef_outside_verbatim_block_still_processed() {
    let text = text_of(
        "ifdef::undefined_var[]\nshould be dropped\nendif::[]\n\nsurviving paragraph\n",
    );
    assert!(!text.contains("should be dropped"), "{text}");
    assert!(text.contains("surviving paragraph"), "{text}");
}

#[test]
fn escape_unwrap_in_verbatim_block() {
    let text = text_of("[source,asciidoc]\n----\n\\ifdef::var[]\nbody\n\\endif::[]\n----\n");
    assert!(text.contains("ifdef::var[]") && !text.contains("\\ifdef"), "{text}");
    assert!(text.contains("endif::[]"), "{text}");
    assert!(text.contains("body"), "{text}");
}

#[test]
fn directive_in_passthrough_block_is_processed() {
    let text = text_of("++++\nifdef::var[]\npass content\nendif::[]\n++++\n");
    assert!(!text.contains("pass content"), "{text}");
}

fn text_under_unsafe(input: &str) -> String {
    let options =
        Options::builder().with_safe_mode(SafeMode::Unsafe).build().with_runtime_builtins();
    done(input, &options, &[]).0.text.into_owned()
}

#[test]
fn ifdef_asciidoctor_keeps_content_under_unsafe() {
    let text = text_under_unsafe(
        "before\n\nifdef::asciidoctor[]\nkept inside ifdef\nendif::[]\n\nafter\n",
    );
    assert!(text.contains("kept inside ifdef"), "{text}");
}

#[test]
fn ifdef_safe_mode_secure_drops_under_unsafe() {
    let text = text_under_unsafe(
        "before\n\nifdef::safe-mode-secure[]\nshould drop\nendif::[]\n\nafter\n",
    );
    assert!(!text.contains("should drop"), "{text}");
}

#[test]
fn ifdef_safe_mode_unsafe_keeps_under_unsafe() {
    let text = text_under_unsafe(
        "before\n\nifdef::safe-mode-unsafe[]\nshould keep\nendif::[]\n\nafter\n",
    );
    assert!(text.contains("should keep"), "{text}");
}

#[test]
fn several_names_are_joined_by_or_or_and() {
    let any = |input: &str| text_of(&format!(":a:\n\n{input}\n"));
    assert_eq!(any("ifdef::a,b[kept]"), ":a:\n\nkept");
    assert_eq!(any("ifdef::a+b[lost]"), ":a:\n");
    assert_eq!(any("ifndef::b[kept]"), ":a:\n\nkept");
    assert_eq!(any("ifndef::a[lost]"), ":a:\n");
}

#[test]
fn a_condition_that_cannot_be_read_is_an_error() {
    let mut warnings = Vec::new();
    let output =
        Preprocessor::process("x\nifdef::[text]", &Options::default(), &[], &mut warnings);
    match output {
        Err(Error::InvalidConditionalDirective(place)) => assert_eq!(place.line, 2),
        other => panic!("expected an error, got {other:?}"),
    }
}

#[test]
fn an_expression_is_asked_for() {
    let input = "ifeval::[1 < 2]\nyes\nendif::[]\nend\n";
    let mut warnings = Vec::new();
    let output = Preprocessor::process(input, &Options::default(), &[], &mut warnings);
    match output {
        Ok(Progress::Needs(Request::Truth { expression, line_number, offset, file, .. })) => {
            assert_eq!((expression.as_str(), line_number), ("1 < 2", 1));
            assert_eq!((offset, file), (0, None));
        }
        other => panic!("expected a question, got {other:?}"),
    }
    let (kept, _) = done(input, &Options::default(), &[Answer::Truth(true)]);
    assert_eq!(kept.text, "yes\n\nend");
    let (lost, _) = done(input, &Options::default(), &[Answer::Truth(false)]);
    assert_eq!(lost.text, "end");
    let (more, _) = done(input, &Options::default(), &[Answer::Truth(false), Answer::Truth(true)]);
    assert_eq!(more.text, "end");
}

// ---------------------------------------------------------------------------
// Lost lines.
// ---------------------------------------------------------------------------

#[test]
fn lost_lines_are_counted() {
    let drops = |input: &str| done(input, &Options::default(), &[]).0.conditional_drops;
    assert_eq!(drops(":a:\nifdef::a[text]\n\nend\n"), Vec::<usize>::new());
    assert_eq!(drops("ifdef::a[text]\n\nend\n"), vec![1]);
    assert_eq!(drops(":a:\nifdef::a[]\none\ntwo\nendif::[]\nend\n"), vec![2]);
    assert_eq!(drops("x\nifdef::a[]\none\ntwo\nendif::[]\nend\n"), vec![2, 3, 4, 5]);
}

// ---------------------------------------------------------------------------
// Text that stays, and text that does not.
// ---------------------------------------------------------------------------

#[test]
fn a_plain_text_is_borrowed() {
    let mut warnings = Vec::new();
    match Preprocessor::process("= Title\n\n:a: b\n", &Options::default(), &[], &mut warnings) {
        Ok(Progress::Done(result)) => {
            assert!(matches!(result.text, Cow::Borrowed("= Title\n\n:a: b")));
            assert!(result.include_expansions.is_empty() && result.conditional_drops.is_empty());
        }
        other => panic!("expected an end, got {other:?}"),
    }
    assert!(warnings.is_empty());
}

#[test]
fn a_trigger_has_the_text_rebuilt() {
    assert!(try_pass_through("= Title\n\nplain ifdef:: text\n[include::x[]]\n"));
    assert!(!try_pass_through("include::a.adoc[]"));
    assert!(!try_pass_through("\\include::a.adoc[]"));
    assert!(!try_pass_through("ifndef::a[]"));
    assert!(!try_pass_through(":a: b \\\nc"));
    assert!(try_pass_through(":a: b\\"));
}

#[test]
fn a_wrapped_attribute_is_one_line() {
    assert_eq!(text_of(":a: one \\\n  two \\\n  three\nrest\n"), ":a: one two three\nrest");
    assert_eq!(text_of(":a: one + \\\ntwo\nrest\n"), ":a: one + \\\ntwo\nrest");
    let mut content = String::from(":a: ");
    let behind = process_continuation(&mut content, &["x \\", "y", "z"], 0);
    assert_eq!((content.as_str(), behind), (":a: x y", 2));
    let behind = process_continuation(&mut content, &[":b:"], 0);
    assert_eq!((content.as_str(), behind), (":a: x y", 0));
}

#[test]
fn delimiters_of_verbatim_blocks() {
    assert_eq!(is_verbatim_delimiter("----"), Some("----"));
    assert_eq!(is_verbatim_delimiter("  -----  "), Some("-----"));
    assert_eq!(is_verbatim_delimiter("....x"), Some("...."));
    assert_eq!(is_verbatim_delimiter("++++"), Some("++++"));
    assert_eq!(is_verbatim_delimiter("```rust"), Some("```"));
    assert_eq!(is_verbatim_delimiter("---"), None);
    assert_eq!(is_verbatim_delimiter("===="), None);
    assert_eq!(is_verbatim_delimiter(""), None);
}

#[test]
fn a_root_leads_into_no_directory() {
    assert!(path_has_parent("main.adoc"));
    assert!(path_has_parent("/a"));
    assert!(path_has_parent("."));
    assert!(path_has_parent("/./a"));
    assert!(path_has_parent("/.a"));
    assert!(!path_has_parent("/"));
    assert!(!path_has_parent("//"));
    assert!(!path_has_parent("/."));
    assert!(!path_has_parent("/././"));
    assert!(!path_has_parent(""));
    for path in ["main.adoc", "/a", ".", "/./a", "/.a", "/", "//", "/.", "/././", "", "./.", ".."] {
        assert_eq!(path_has_parent(path), std::path::Path::new(path).parent().is_some(), "{path}");
    }
}

#[test]
fn lines_behind_a_wrapped_attribute_keep_their_numbers() {
    let input = ":a: x \\\ny\nifdef::b[t]\nend\n";
    let (result, _) = done(input, &Options::default(), &[]);
    assert_eq!(result.text, ":a: x y\nend");
    assert_eq!(result.conditional_drops, vec![3]);
    let input = ":a: x \\\ny\ninclude::c.adoc[]\n";
    let options = Options::default();
    let mut warnings = Vec::new();
    match Preprocessor::process_with_file(input, "d/m.adoc", &options, &[], &mut warnings) {
        Ok(Progress::Needs(Request::Content { line_number, offset, .. })) => {
            assert_eq!((line_number, offset), (3, 10));
        }
        other => panic!("expected a question, got {other:?}"),
    }
    let answer = [Answer::Content(IncludeResult {
        lines: vec!["one".to_string()],
        effective_leveloffset: None,
        nested_leveloffset_ranges: vec![],
        file: None,
        nested_source_ranges: vec![],
        warnings: vec![],
    })];
    match Preprocessor::process_with_file(input, "d/m.adoc", &options, &answer, &mut warnings) {
        Ok(Progress::Done(result)) => {
            assert_eq!(result.text, ":a: x y\none");
            assert_eq!(result.include_expansions[0].source_line, 3);
        }
        other => panic!("expected an end, got {other:?}"),
    }
}

#[test]
fn a_condition_with_its_own_text_takes_no_further_line() {
    assert_eq!(text_of(":a:\nifdef::a[text]\none\ntwo\n"), ":a:\ntext\none\ntwo");
    assert_eq!(text_of("ifdef::a[text]\none\ntwo\n"), "one\ntwo");
    assert_eq!(text_of("ifndef::a[text]\nendif is text\n"), "text\nendif is text");
}

#[test]
fn the_warnings_of_a_content_stand_in_its_place() {
    let content = |message: &str| {
        Answer::Content(IncludeResult {
            lines: vec![],
            effective_leveloffset: None,
            nested_leveloffset_ranges: vec![],
            file: None,
            nested_source_ranges: vec![],
            warnings: vec![Warning { message: message.to_string(), location: None }],
        })
    };
    let answers = [content("first"), content("second")];
    let input = "include::a.adoc[]\ninclude::b.adoc[]\nend\n";
    let mut warnings = vec![Warning { message: "before".to_string(), location: None }];
    let options = Options::default();
    let end = Preprocessor::process_with_file(input, "m.adoc", &options, &answers, &mut warnings);
    assert!(matches!(end, Ok(Progress::Done(_))));
    let found: Vec<&str> = warnings.iter().map(|w| w.message.as_str()).collect();
    assert_eq!(found, ["before", "first", "second"]);
}

// ---------------------------------------------------------------------------
// Content of other files.
// ---------------------------------------------------------------------------

#[test]
fn content_is_put_in_its_place() {
    let mut state = PreprocessorState::new();
    state.push_line("é".to_string());
    let content = IncludeResult {
        lines: vec!["one".to_string(), "two".to_string()],
        effective_leveloffset: Some(1),
        nested_leveloffset_ranges: vec![LeveloffsetRange {
            start_offset: 4,
            end_offset: 8,
            value: -1,
        }],
        file: Some("a.adoc".to_string()),
        nested_source_ranges: vec![SourceRange {
            start_offset: 4,
            end_offset: 8,
            file: "b.adoc".to_string(),
            start_line: 1,
        }],
        warnings: vec![],
    };
    handle_include_result(&content, &mut state, 7, true);
    let source = ":x: y\ninclude::a.adoc[]\nend\n";
    let options = Options::builder().with_virtual_current_file("main.adoc").build();
    let (result, warnings) = done(source, &options, &[Answer::Content(content)]);
    assert!(warnings.is_empty());
    assert_eq!(result.text, ":x: y\none\ntwo\nend");
    assert_eq!(
        result.leveloffset_ranges,
        vec![
            LeveloffsetRange { start_offset: 6, end_offset: 14, value: 1 },
            LeveloffsetRange { start_offset: 10, end_offset: 14, value: -1 },
        ]
    );
    let sources: Vec<(usize, usize, &str, usize)> = result
        .source_ranges
        .iter()
        .map(|r| (r.start_offset, r.end_offset, r.file.as_str(), r.start_line))
        .collect();
    assert_eq!(sources, vec![(6, 14, "a.adoc", 1), (10, 14, "b.adoc", 1)]);
    assert_eq!(
        result.include_expansions,
        vec![IncludeExpansion { source_line: 2, expanded_lines: 2 }]
    );
}

#[test]
fn content_is_asked_for_with_its_place() {
    let options = Options::builder().with_virtual_current_file("dir/main.adoc").build();
    let mut warnings = Vec::new();
    let output =
        Preprocessor::process("é\ninclude::a.adoc[]\n", &options, &[], &mut warnings);
    match output {
        Ok(Progress::Needs(Request::Content { line, line_number, offset, file, depth, .. })) => {
            assert_eq!(line, "include::a.adoc[]");
            assert_eq!((line_number, offset, depth), (2, 3, 0));
            assert_eq!(file, "dir/main.adoc");
        }
        other => panic!("expected a question, got {other:?}"),
    }
}

#[test]
fn without_a_file_a_directive_counts_as_empty() {
    let (result, warnings) = done("a\ninclude::b.adoc[]\nc\n", &Options::default(), &[]);
    assert_eq!(result.text, "a\nc");
    assert_eq!(
        result.include_expansions,
        vec![IncludeExpansion { source_line: 2, expanded_lines: 0 }]
    );
    assert_eq!(warnings.len(), 1);
    assert_eq!(warnings[0].location.as_ref().map(|l| l.line), Some(2));
}

/// Files in memory.
struct InMemoryFiles {
    files: HashMap<String, Vec<u8>>,
}

impl InMemoryFiles {
    fn new(pairs: &[(&str, &str)]) -> Self {
        Self {
            files: pairs.iter().map(|(k, v)| (k.to_string(), v.as_bytes().to_vec())).collect(),
        }
    }
}

impl FileResolver for InMemoryFiles {
    fn read(&self, path: &str) -> Result<Cow<'_, [u8]>, FileResolverError> {
        match self.files.get(path) {
            Some(bytes) => Ok(Cow::Borrowed(bytes)),
            None => Err(FileResolverError::not_found(path)),
        }
    }
}

/// A text with the attributes in braces replaced by their values.
fn with_values(text: &str, attributes: &DocumentAttributes<'_>) -> String {
    let mut out = String::new();
    let mut rest = text;
    while let Some((before, behind)) = rest.split_once('{') {
        let (name, after) = behind.split_once('}').expect("a closing brace");
        out.push_str(before);
        match attributes.get(name) {
            Some(AttributeValue::String(value)) => out.push_str(value),
            other => panic!("no text for {name}: {other:?}"),
        }
        rest = after;
    }
    out.push_str(rest);
    out
}

/// Go through a source, with the content of the files that it names as a whole. The
/// paths are relative to the directory of the file that names them. An expression
/// compares two texts.
fn expand(
    input: &str,
    file: Option<&str>,
    depth: usize,
    options: &Options<'_>,
    warnings: &mut Vec<Warning>,
) -> Result<PreprocessorResult<'static>, Error> {
    let mut answers = Vec::new();
    loop {
        let before = warnings.len();
        let step =
            Preprocessor { depth }.process_inner(input, file, options, &answers, warnings)?;
        match step {
            Progress::Done(result) => return Ok(result.into_owned()),
            Progress::Needs(Request::Truth { expression, attributes, .. }) => {
                warnings.truncate(before);
                let written = with_values(&expression, &attributes);
                let (left, right) = written.split_once(" == ").expect("a comparison");
                answers.push(Answer::Truth(left == right));
            }
            Progress::Needs(Request::Content { line, file, depth, attributes, .. }) => {
                warnings.truncate(before);
                let target = &line["include::".len()..line.find('[').expect("a directive")];
                let target = with_values(target, &attributes);
                let path = match file.rfind('/') {
                    Some(slash) => format!("{}/{}", &file[..slash], target),
                    None => target,
                };
                let mut options = options.clone();
                options.document_attributes = attributes;
                let resolver = options.file_resolver.as_ref().expect("a resolver");
                let content = read_and_decode_file(&path, None, resolver)?;
                let mut nested = Vec::new();
                let inner = expand(&content, Some(&path), depth + 1, &options, &mut nested)?;
                answers.push(Answer::Content(IncludeResult {
                    lines: inner.text.lines().map(str::to_string).collect(),
                    effective_leveloffset: None,
                    nested_leveloffset_ranges: inner.leveloffset_ranges,
                    file: Some(path),
                    nested_source_ranges: inner.source_ranges,
                    warnings: nested,
                }));
            }
        }
    }
}

fn resolver_of(pairs: &[(&str, &str)]) -> DynFileResolver {
    DynFileResolver::new(InMemoryFiles::new(pairs))
}

fn expand_files(
    source: &str,
    file: Option<&str>,
    resolver: DynFileResolver,
) -> (String, Vec<Warning>) {
    let mut builder = Options::builder().with_file_resolver(resolver);
    if let Some(file) = file {
        builder = builder.with_virtual_current_file(file);
    }
    let options = builder.build();
    let mut warnings = Vec::new();
    let current = options.virtual_current_file.as_deref();
    let result = expand(source, current, 0, &options, &mut warnings).expect("parse ok");
    (result.text.into_owned(), warnings)
}

#[test]
fn include_expands_via_resolver() {
    let resolver = DynFileResolver::new(InMemoryFiles::new(&[(
        "ch1.adoc",
        "== Chapter 1\n\nFirst paragraph of chapter 1.\n",
    )]));
    let (text, _) = expand_files(
        "= Main\n\nBefore.\n\ninclude::ch1.adoc[]\n\nAfter.\n",
        Some("main.adoc"),
        resolver,
    );
    assert_eq!(
        text,
        "= Main\n\nBefore.\n\n== Chapter 1\n\nFirst paragraph of chapter 1.\n\nAfter."
    );
}

#[test]
fn cyclic_include_bounded_by_depth_limit_no_stack_overflow() {
    let resolver = DynFileResolver::new(InMemoryFiles::new(&[
        ("a.adoc", "== A\n\ninclude::b.adoc[]\n"),
        ("b.adoc", "== B\n\ninclude::a.adoc[]\n"),
    ]));
    let (text, warnings) =
        expand_files("= Main\n\ninclude::a.adoc[]\n", Some("main.adoc"), resolver);
    assert!(
        warnings.iter().any(|w| w.message.contains("include depth exceeded")),
        "expected a depth-exceeded warning; got: {warnings:?}"
    );
    assert_eq!(text.matches("== A").count(), 32);
    assert_eq!(text.matches("== B").count(), 32);
}

#[test]
fn absolute_path_preserved_for_resolver_lookup() {
    let resolver = DynFileResolver::new(InMemoryFiles::new(&[(
        "/Users/me/vault/adoc/ch1.adoc",
        "== Chapter 1\n\nAbs body.\n",
    )]));
    let (text, warnings) = expand_files(
        "= Main\n\ninclude::ch1.adoc[]\n",
        Some("/Users/me/vault/adoc/main.adoc"),
        resolver,
    );
    assert!(text.contains("== Chapter 1"), "{text}; warnings: {warnings:?}");
}

#[test]
fn nested_include_two_levels_resolves_via_resolver() {
    let resolver = DynFileResolver::new(InMemoryFiles::new(&[
        ("outer.adoc", "== Outer\n\ninclude::inner.adoc[]\n"),
        ("inner.adoc", "=== Inner\n\nInner body.\n"),
    ]));
    let (text, _) = expand_files("= Main\n\ninclude::outer.adoc[]\n", Some("main.adoc"), resolver);
    assert_eq!(text, "= Main\n\n== Outer\n\n=== Inner\n\nInner body.");
}

#[test]
fn missing_virtual_current_file_with_resolver_warns_via_parse_result() {
    let resolver = DynFileResolver::new(InMemoryFiles::new(&[("ch1.adoc", "== Chapter 1\n")]));
    let (_, warnings) = expand_files("= Main\n\ninclude::ch1.adoc[]\n", None, resolver);
    assert!(
        warnings.iter().any(|w| w.message.contains("no file context")),
        "expected `no file context` warning, got: {warnings:?}"
    );
}

#[test]
fn test_include_utf16_file() {
    let included = "This is included content.\nWith special characters: é, ñ, ü.\n";
    let mut bytes = vec![0xFF, 0xFE];
    for unit in included.encode_utf16() {
        bytes.extend_from_slice(&unit.to_le_bytes());
    }
    let mut files = InMemoryFiles::new(&[]);
    files.files.insert("fixtures/utf16le.adoc".to_string(), bytes);
    let (text, _) = expand_files(
        "= Main Document\n\ninclude::utf16le.adoc[]\n\nAfter include.\n",
        Some("fixtures/main.adoc"),
        DynFileResolver::new(files),
    );
    assert!(text.contains("= Main Document"));
    assert!(text.contains("This is included content."));
    assert!(text.contains("With special characters: é, ñ, ü."));
    assert!(text.contains("After include."));
}

#[test]
fn test_nested_include_relative_paths() {
    let resolver = DynFileResolver::new(InMemoryFiles::new(&[
        ("fixtures/subdir/middle.adoc", "This is middle content.\n\ninclude::inner.adoc[]\n"),
        ("fixtures/subdir/inner.adoc", "This is inner content from subdir.\n"),
    ]));
    let (text, _) = expand_files(
        "= Nested Include Test\n\ninclude::subdir/middle.adoc[]\n",
        Some("fixtures/nested_include_main.adoc"),
        resolver,
    );
    assert!(text.contains("= Nested Include Test"));
    assert!(text.contains("This is middle content."));
    assert!(
        text.contains("This is inner content from subdir."),
        "nested content must be found beside its own file: {text}"
    );
}

#[test]
fn lines_of_source_and_text_are_accounted_for() {
    let content = |lines: &[&str]| {
        Answer::Content(IncludeResult {
            lines: lines.iter().map(|l| l.to_string()).collect(),
            effective_leveloffset: None,
            nested_leveloffset_ranges: vec![],
            file: None,
            nested_source_ranges: vec![],
            warnings: vec![],
        })
    };
    let cases = [
        "a\nifdef::x[]\nb\nc\nendif::[]\nd",
        ":x:\n\nifdef::x[]\nb\nc\nendif::[]\nd",
        ":x:\n\nifdef::x[own]\n\nifndef::x[own]\n\nd",
        "a\ninclude::one.adoc[]\nb\ninclude::two.adoc[]\nc",
        "\\ifdef::x[]\n:y: 1 + \\\n2\nend",
    ];
    for source in cases {
        let answers = [content(&["1", "2", "3"]), content(&[])];
        let mut warnings = Vec::new();
        let options = Options::default();
        let ended =
            Preprocessor::process_with_file(source, "m.adoc", &options, &answers, &mut warnings);
        let result = match ended {
            Ok(Progress::Done(result)) => result,
            other => panic!("expected an end, got {other:?}"),
        };
        let brought: isize =
            result.include_expansions.iter().map(|e| e.expanded_lines as isize - 1).sum();
        let lines = source.split('\n').count() - result.conditional_drops.len();
        assert_eq!(result.text.split('\n').count() as isize, lines as isize + brought, "{source}");
    }
}

#[test]
fn a_soft_wrap_merges_lines() {
    let source = ":y: 1 \\\n2\nend";
    assert_eq!(text_of(source), ":y: 1 2\nend");
}

// ---------------------------------------------------------------------------
// Questions and attributes.
// ---------------------------------------------------------------------------

#[test]
fn an_expression_is_asked_with_the_attributes_in_force() {
    let first = ":x: 1\nifeval::[{x} == 1]\nyes\nendif::[]\n";
    let second = ":x: 2\nifeval::[{x} == 1]\nno\nendif::[]\nend\n";
    let (text, _) = expand_files(&format!("{first}{second}"), None, resolver_of(&[]));
    assert_eq!(text, ":x: 1\nyes\n\n:x: 2\nend");
    let options = Options::default();
    let mut warnings = Vec::new();
    let input = ":!y:\n:x: 1\nifeval::[{x} == 1]\n";
    match Preprocessor::process_with_file(input, "d/m.adoc", &options, &[], &mut warnings) {
        Ok(Progress::Needs(Request::Truth { line_number, offset, file, attributes, .. })) => {
            assert_eq!((line_number, offset, file.as_deref()), (3, 11, Some("d/m.adoc")));
            assert!(attributes.contains_key("x") && !attributes.contains_key("y"));
            assert!(matches!(attributes.get("x"), Some(AttributeValue::String(v)) if v == "1"));
        }
        other => panic!("expected a question, got {other:?}"),
    }
}

#[test]
fn a_target_is_asked_for_with_the_attributes_in_force() {
    let files = resolver_of(&[("docs/d/a.adoc", "from d"), ("docs/e/a.adoc", "from e")]);
    let source = ":dir: d\ninclude::{dir}/a.adoc[]\n:dir: e\ninclude::{dir}/a.adoc[]\n";
    let (text, _) = expand_files(source, Some("docs/main.adoc"), files);
    assert_eq!(text, ":dir: d\nfrom d\n:dir: e\nfrom e");
}

#[test]
fn a_nested_condition_sees_the_attributes_of_the_outer_source() {
    let files = resolver_of(&[("a.adoc", "ifdef::x[seen]\nifndef::x[missed]\nend")]);
    let (text, _) = expand_files(":x:\ninclude::a.adoc[]\n", Some("main.adoc"), files);
    assert_eq!(text, ":x:\nseen\nend");
    let files = resolver_of(&[("a.adoc", "ifdef::x[seen]\nifndef::x[missed]\nend")]);
    let (text, _) = expand_files("include::a.adoc[]\n:x:\n", Some("main.adoc"), files);
    assert_eq!(text, "missed\nend\n:x:");
}

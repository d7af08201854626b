//! What an embedder hands in and gets back.

use acdc_parser::envelope::{
    collect_all_warnings, lint_diag_to_json, warning_to_json, LintDiagnostic, WarningJson,
};
use acdc_parser::error::{Error, SourceLocation, Warning};
use acdc_parser::file_resolver::{
    read_reply, DynFileResolver, FileResolver, FileResolverError, Reply,
};
use acdc_parser::model::anchor::Anchor;
use acdc_parser::model::document::{
    Block, BlockMetadata, CrossReference, Document, InlineMacro, InlineNode, Paragraph,
};
use acdc_parser::model::{Location, Position};
use acdc_parser::options::{build_options, build_options_with_resolver, Options, SafeMode};
use acdc_parser::preprocessor::process::{Answer, Preprocessor, Progress, Request};
use std::borrow::Cow;

fn at(line: u32, column: u32, start: usize, end: usize) -> Location {
    Location {
        absolute_start: start,
        absolute_end: end,
        start: Position { line, column },
        end: Position { line, column: column + (end - start) as u32 },
    }
}

fn referring(target: &'static str) -> Document<'static> {
    let place = at(4, 3, 30, 39);
    let node = InlineNode::Macro(InlineMacro::CrossReference(CrossReference {
        target,
        text: vec![],
        location: place,
    }));
    let anchor = Anchor::new("there", at(1, 1, 0, 9));
    Document {
        blocks: vec![Block::Paragraph(Paragraph {
            metadata: BlockMetadata { id: None, anchors: vec![anchor] },
            title: vec![],
            content: vec![node],
            location: at(4, 1, 28, 39),
        })],
        location: at(1, 1, 0, 39),
    }
}

fn parts(w: &WarningJson) -> (&str, &str, Option<usize>, Option<usize>, Option<&str>) {
    (&w.kind, &w.message, w.line, w.column, w.file.as_deref())
}

#[test]
fn a_warning_is_handed_out_with_its_place() {
    let warning = Warning {
        message: "odd".to_string(),
        location: Some(SourceLocation { file: Some("a.adoc".to_string()), line: 7, column: 2 }),
    };
    let out = warning_to_json(&warning, "Other".to_string());
    assert_eq!(parts(&out), ("Other", "odd", Some(7), Some(2), Some("a.adoc")));
    let nowhere = Warning { message: "odd".to_string(), location: None };
    let out = warning_to_json(&nowhere, "Other".to_string());
    assert_eq!(parts(&out), ("Other", "odd", None, None, None));
}

#[test]
fn warnings_about_references_come_last() {
    let given = || {
        let first = Warning { message: "first".to_string(), location: None };
        vec![warning_to_json(&first, "Other".to_string())]
    };
    let all = collect_all_warnings(given(), &referring("nowhere"));
    assert_eq!(all.len(), 2);
    assert_eq!(all[0].message, "first");
    assert_eq!(all[1].kind, "UnresolvedCrossReference");
    assert_eq!((all[1].line, all[1].column, all[1].file.as_deref()), (Some(4), Some(3), None));
    let all = collect_all_warnings(given(), &referring("there"));
    assert_eq!(all.len(), 1);
}

#[test]
fn a_reply_is_bytes_or_an_error() {
    let bytes = read_reply("a.adoc", Reply::Text("h\u{e9}".to_string())).expect("bytes");
    assert_eq!(bytes, "h\u{e9}".as_bytes());
    let message = |reply| match read_reply("a.adoc", reply) {
        Err(e) => {
            assert_eq!(e.path(), "a.adoc");
            e.message()
        }
        Ok(bytes) => panic!("expected an error, got {bytes:?}"),
    };
    assert_eq!(message(Reply::Nothing), "file not found: a.adoc");
    assert_eq!(
        message(Reply::NoText),
        "file read error for a.adoc: js resolver returned non-string value"
    );
    assert_eq!(
        message(Reply::Threw("no".to_string())),
        "file read error for a.adoc: js resolver threw: no"
    );
}

#[test]
fn a_failure_is_a_missing_file_or_another_one() {
    let missing = FileResolverError::of_failure("a.adoc", true, "gone");
    assert!(matches!(missing, FileResolverError::NotFound { .. }));
    assert_eq!(missing.message(), "file not found: a.adoc");
    let other = FileResolverError::of_failure("a.adoc", false, "broken");
    assert!(matches!(other, FileResolverError::Io { .. }));
    assert_eq!(other.message(), "file read error for a.adoc: broken");
}

struct Fixed;

impl FileResolver for Fixed {
    fn read(&self, path: &str) -> Result<Cow<'_, [u8]>, FileResolverError> {
        Ok(Cow::Owned(path.as_bytes().to_vec()))
    }
}

#[test]
fn options_hold_the_resolver_and_the_file() {
    let options =
        build_options_with_resolver(Some("safe"), DynFileResolver::new(Fixed), "dir/main.adoc");
    assert_eq!(options.safe_mode, SafeMode::Safe);
    assert_eq!(options.virtual_current_file.as_deref(), Some("dir/main.adoc"));
    assert!(options.dropped_unresolved_includes && build_options(None).dropped_unresolved_includes);
    assert!(!Options::default().dropped_unresolved_includes);
    let resolver = options.file_resolver.expect("resolver");
    assert_eq!(resolver.read("x").expect("bytes").as_ref(), b"x");
    let options = build_options_with_resolver(None, DynFileResolver::new(Fixed), "main.adoc");
    assert_eq!(options.safe_mode, build_options(None).safe_mode);
}

fn from_file(
    path: &str,
    read: Result<Cow<'_, [u8]>, FileResolverError>,
    answers: &[Answer],
) -> Result<Progress<'static>, Error> {
    let mut warnings = Vec::new();
    Preprocessor::process_file(path, read, &Options::default(), answers, &mut warnings)
}

#[test]
fn a_file_is_decoded_and_gone_through() {
    let bytes = b"\xEF\xBB\xBF:a: 1\n\nifdef::a[]\nkept\nendif::[]\n".to_vec();
    match from_file("dir/main.adoc", Ok(Cow::Owned(bytes)), &[]) {
        Ok(Progress::Done(result)) => assert_eq!(result.text, ":a: 1\n\nkept\n"),
        other => panic!("expected an end, got {other:?}"),
    }
}

#[test]
fn a_file_asks_with_its_own_path() {
    let line = "include::part.adoc[]";
    match from_file("dir/main.adoc", Ok(Cow::Borrowed(line.as_bytes())), &[]) {
        Ok(Progress::Needs(Request::Content { line: asked, file, .. })) => {
            assert_eq!((asked.as_str(), file.as_str()), (line, "dir/main.adoc"));
        }
        other => panic!("expected a request, got {other:?}"),
    }
}

#[test]
fn a_file_that_cannot_be_taken_is_an_error() {
    match from_file("/", Ok(Cow::Borrowed(b"text")), &[]) {
        Err(Error::InvalidIncludePath(place, path)) => {
            assert_eq!((place.line, path.as_str()), (1, "/"));
        }
        other => panic!("expected an error, got {other:?}"),
    }
    match from_file("a.adoc", Err(FileResolverError::not_found("a.adoc")), &[]) {
        Err(Error::Io { missing, .. }) => assert!(missing),
        other => panic!("expected an error, got {other:?}"),
    }
    match from_file("a.adoc", Ok(Cow::Borrowed(b"\xFF\xFFtext")), &[]) {
        Err(Error::UnrecognizedEncodingInFile(path)) => assert_eq!(path, "a.adoc"),
        other => panic!("expected an error, got {other:?}"),
    }
}

#[test]
fn what_a_linter_finds_is_handed_out() {
    let mut found = LintDiagnostic {
        lint: "one-sentence-per-line".to_string(),
        level: "warning".to_string(),
        message: "two sentences".to_string(),
        help: Some("split it".to_string()),
        location: Some(SourceLocation { file: None, line: 3, column: 9 }),
    };
    let out = lint_diag_to_json(&found);
    assert_eq!((out.lint.as_str(), out.level.as_str()), ("one-sentence-per-line", "warning"));
    assert_eq!((out.message.as_str(), out.help.as_deref()), ("two sentences", Some("split it")));
    assert_eq!((out.line, out.column), (Some(3), Some(9)));
    found.location = None;
    found.help = None;
    let out = lint_diag_to_json(&found);
    assert_eq!((out.help, out.line, out.column), (None, None, None));
}

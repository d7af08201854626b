//! The encodings of files.

use acdc_parser::error::Error;
use acdc_parser::file_resolver::{DynFileResolver, FileResolver, FileResolverError};
use acdc_parser::preprocessor::decode::{
    decode_bytes, decode_read, finish_decoding, plan_decoding, read_and_decode_file, DecodePlan,
};
use acdc_parser::preprocessor::normalize::normalize;
use std::borrow::Cow;

const DOCUMENT: &str = "= Test Document\n\nThis is a test with special chars: é, ñ, ü.\n";

/// One file.
struct OneFile(Vec<u8>);

impl FileResolver for OneFile {
    fn read(&self, path: &str) -> Result<Cow<'_, [u8]>, FileResolverError> {
        if path == "file.adoc" {
            Ok(Cow::Borrowed(&self.0))
        } else if path == "locked.adoc" {
            Err(FileResolverError::io(path, "simulated backend failure"))
        } else {
            Err(FileResolverError::not_found(path))
        }
    }
}

fn read(bytes: &[u8], encoding: Option<&str>) -> Result<String, Error> {
    let resolver = DynFileResolver::new(OneFile(bytes.to_vec()));
    read_and_decode_file("file.adoc", encoding, &resolver)
}

fn utf16(mark: [u8; 2], big: bool) -> Vec<u8> {
    let mut bytes = mark.to_vec();
    for unit in DOCUMENT.encode_utf16() {
        let pair = if big { unit.to_be_bytes() } else { unit.to_le_bytes() };
        bytes.extend_from_slice(&pair);
    }
    bytes
}

fn assert_document(content: &str) {
    assert!(content.contains("= Test Document"));
    assert!(content.contains("This is a test with special chars: é, ñ, ü."));
    assert_eq!(content, DOCUMENT);
}

#[test]
fn test_utf8_bom_detection() {
    let mut bytes = vec![0xEF, 0xBB, 0xBF];
    bytes.extend_from_slice(DOCUMENT.as_bytes());
    let content = read(&bytes, None).expect("decoded");
    assert_document(&content);
    assert!(!content.starts_with('\u{FEFF}'));
}

#[test]
fn test_utf16le_bom_detection() {
    assert_document(&read(&utf16([0xFF, 0xFE], false), None).expect("decoded"));
}

#[test]
fn test_utf16be_bom_detection() {
    assert_document(&read(&utf16([0xFE, 0xFF], true), None).expect("decoded"));
}

#[test]
fn test_utf8_no_bom() {
    assert_document(&read(DOCUMENT.as_bytes(), None).expect("decoded"));
}

#[test]
fn test_explicit_encoding_override() {
    let content = read(DOCUMENT.as_bytes(), Some("utf-8")).expect("decoded");
    assert!(content.contains("= Test Document"));
    assert_eq!(read(&[0xE9, b'!'], Some("latin1")).expect("decoded"), "é!");
}

#[test]
fn test_unknown_encoding_error() {
    let result = read(DOCUMENT.as_bytes(), Some("unknown-encoding-12345"));
    assert!(matches!(result, Err(Error::UnknownEncoding(_))));
    match result {
        Err(Error::UnknownEncoding(label)) => assert_eq!(label, "unknown-encoding-12345"),
        other => panic!("{other:?}"),
    }
}

#[test]
fn bytes_that_are_no_text_are_refused() {
    match read(&[b'a', 0xFF, 0xFF], None) {
        Err(Error::UnrecognizedEncodingInFile(path)) => assert_eq!(path, "file.adoc"),
        other => panic!("{other:?}"),
    }
}

#[test]
fn a_named_encoding_takes_bytes_that_it_lacks() {
    assert_eq!(decode_bytes(&[b'a', 0xFF], Some("utf-8"), "f").expect("decoded"), "a\u{FFFD}");
}

#[test]
fn a_missing_file_is_told_from_another_failure() {
    let resolver = DynFileResolver::new(OneFile(vec![]));
    match read_and_decode_file("none.adoc", None, &resolver) {
        Err(Error::Io { message, missing }) => {
            assert!(missing);
            assert_eq!(message, "file not found: none.adoc");
        }
        other => panic!("{other:?}"),
    }
    match read_and_decode_file("locked.adoc", None, &resolver) {
        Err(Error::Io { message, missing }) => {
            assert!(!missing);
            assert!(message.contains("simulated backend failure"), "{message}");
        }
        other => panic!("{other:?}"),
    }
    let failed = decode_read(Err(FileResolverError::not_found("x")), None, "x");
    assert!(matches!(failed, Err(Error::Io { missing: true, .. })));
}

#[test]
fn the_mark_tells_the_encoding() {
    assert!(matches!(plan_decoding(&[0xEF, 0xBB, 0xBF, b'a'], None), DecodePlan::Marked("utf-8", 3)));
    assert!(matches!(plan_decoding(&[0xFF, 0xFE], None), DecodePlan::Marked("utf-16le", 2)));
    assert!(matches!(plan_decoding(&[0xFE, 0xFF], None), DecodePlan::Marked("utf-16be", 2)));
    assert!(matches!(plan_decoding(&[0xFE], None), DecodePlan::Plain));
    assert!(matches!(plan_decoding(&[0xFF, 0xFE], Some("x")), DecodePlan::Named("x")));
}

#[test]
fn what_was_decoded_is_judged_by_the_plan() {
    let lossy = || Some(("a".to_string(), true));
    assert_eq!(finish_decoding(DecodePlan::Named("l"), lossy(), "f").expect("text"), "a");
    assert_eq!(finish_decoding(DecodePlan::Marked("utf-8", 3), lossy(), "f").expect("text"), "a");
    let plain = finish_decoding(DecodePlan::Plain, lossy(), "f");
    assert!(matches!(plain, Err(Error::UnrecognizedEncodingInFile(_))));
    let unknown = finish_decoding(DecodePlan::Named("l"), None, "f");
    assert!(matches!(unknown, Err(Error::UnknownEncoding(_))));
}

#[test]
fn errors_say_what_was_asked_for() {
    let missing = FileResolverError::not_found("a/b.adoc");
    assert_eq!(missing.path(), "a/b.adoc");
    assert_eq!(missing.message(), "file not found: a/b.adoc");
    let failed = FileResolverError::io("a", "denied");
    assert_eq!(failed.path(), "a");
    assert!(failed.message().contains("denied"), "{}", failed.message());
}

#[test]
fn line_endings_are_normalized() {
    assert!(matches!(normalize("a\nb\n"), Cow::Borrowed("a\nb")));
    assert!(matches!(normalize("a\nb"), Cow::Borrowed("a\nb")));
    assert_eq!(normalize("a\r\nb\r\n"), "a\nb");
    assert_eq!(normalize("a  \nb\t\n"), "a\nb");
    assert_eq!(normalize("a\n\n"), "a\n");
    assert!(matches!(normalize(""), Cow::Borrowed("")));
}

#[test]
fn no_line_ends_in_white_space() {
    assert_eq!(normalize("a\u{a0}\nb\u{3000}"), "a\nb");
    assert_eq!(normalize("a\u{b}\n \u{2003}\nb"), "a\n\nb");
    assert_eq!(normalize(" a b \r\n\tc\t"), " a b\n\tc");
    assert_eq!(normalize("a\rb"), "a\rb");
}

#[test]
fn valid_utf_8_is_taken_as_it_is() {
    for label in ["utf-8", "UTF-8", "utf8"] {
        assert_eq!(decode_bytes(DOCUMENT.as_bytes(), Some(label), "f").expect("text"), DOCUMENT);
    }
    assert_eq!(decode_bytes(DOCUMENT.as_bytes(), None, "f").expect("text"), DOCUMENT);
    assert_eq!(decode_bytes(&[], None, "f").expect("text"), "");
    assert!(decode_bytes(&[0xC3], None, "f").is_err());
    assert_eq!(decode_bytes(&[0xC3, 0xA9], Some("windows-1252"), "f").expect("text"), "Ã©");
}

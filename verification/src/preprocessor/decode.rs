//! Turning the bytes of a file into text.
//!
//! A named encoding is taken at its word. Without one, a byte order mark tells the
//! encoding, and bytes without such a mark have to be UTF-8.

use crate::error::{opt_view, Error, ErrorV};
use crate::file_resolver::{DynFileResolver, FileResolverError};
use crate::text::same_chars;
use std::borrow::Cow;
use vstd::prelude::*;
use vstd::string::*;
use vstd::utf8::{
    char_u32_cast, codepoint_width_3, decode_first_scalar, decode_utf8, encode_utf8,
    encode_utf8_decode_utf8, encode_utf8_first_scalar, encode_utf8_valid_utf8,
    valid_first_scalar, valid_utf8,
};

verus! {

/// The text that bytes stand for in the encoding of a label, and whether some of
/// them were malformed and were replaced; `None` where no encoding has the label.
pub uninterp spec fn decoded_as(label: Seq<char>, bytes: Seq<u8>) -> Option<(Seq<char>, bool)>;

/// The label of one of the encodings that a byte order mark can tell.
pub open spec fn is_unicode_label(label: Seq<char>) -> bool {
    label == "utf-8"@ || label == "utf-16le"@ || label == "utf-16be"@
}

/// A label of UTF-8.
pub open spec fn is_utf8_label(label: Seq<char>) -> bool {
    label == "utf-8"@ || label == "UTF-8"@ || label == "utf8"@ || label == "UTF8"@
}

/// A label of UTF-16.
pub open spec fn is_utf16_label(label: Seq<char>) -> bool {
    label == "utf-16le"@ || label == "utf-16be"@ || label == "utf-16"@ || label == "UTF-16LE"@
        || label == "UTF-16BE"@ || label == "UTF-16"@
}

/// The most bytes that the decoder asks a buffer to hold for bytes in the encoding of a
/// label. UTF-8 is borrowed. UTF-16 takes three bytes for each two, measured once, unless
/// a mark of UTF-8 stands before it. Bytes that are no UTF-8 take up to three bytes
/// each: the buffer is first a power of two that holds them unreplaced, and grows to
/// twice that, or to what they take replaced. In other encodings that power of two may
/// be as large as what they take replaced.
pub open spec fn buffer_bytes(label: Seq<char>, bytes: Seq<u8>) -> nat {
    if is_utf8_label(label) && valid_utf8(bytes) {
        0
    } else if is_utf8_label(label) {
        4 * bytes.len() + 16
    } else if is_utf16_label(label) && !(mark_of(bytes) matches Some(mark) && mark.0 == "utf-8"@) {
        3 * ((bytes.len() + 1) / 2) + 1
    } else {
        6 * bytes.len() + 16
    }
}

/// Bytes that can be decoded in the encoding of a label: the buffer for them is one that
/// can be allocated.
pub open spec fn can_be_decoded(label: Seq<char>, bytes: Seq<u8>) -> bool {
    buffer_bytes(label, bytes) <= isize::MAX
}

/// Whether bytes are UTF-8, by `std::str::from_utf8`, which fails exactly on those that
/// are not.
#[verifier::external_body]
fn is_valid_utf8(bytes: &[u8]) -> (r: bool)
    ensures
        r == valid_utf8(bytes@),
{
    std::str::from_utf8(bytes).is_ok()
}

/// Decode bytes with `encoding_rs::Encoding::decode`, in the encoding that
/// `encoding_rs::Encoding::for_label` gives for a label. What comes out depends on
/// the label and the bytes alone; `decoded_as` is the name of it. The labels of
/// UTF-8 and of UTF-16 in either order are known. Bytes without a byte order mark
/// that are decoded as UTF-8 are malformed where they are no UTF-8, and else stand
/// for the characters that they encode. `decode` borrows UTF-8 that it is to decode as
/// such; elsewhere it panics where the size of its buffer cannot be measured or is more
/// than can be allocated, so the length of other input is bounded by the size that it
/// measures.
#[verifier::external_body]
fn decode_labelled(label: &str, bytes: &[u8]) -> (r: Option<(String, bool)>)
    requires
        can_be_decoded(label@, bytes@),
    ensures
        match r {
            Some(d) => decoded_as(label@, bytes@) == Some((d.0@, d.1)),
            None => decoded_as(label@, bytes@) is None,
        },
        is_unicode_label(label@) ==> r is Some,
        label@ == "utf-8"@ && mark_of(bytes@) is None ==> (r matches Some(d) ==> {
            &&& d.1 == !valid_utf8(bytes@)
            &&& valid_utf8(bytes@) ==> d.0@ == decode_utf8(bytes@)
        }),
{
    encoding_rs::Encoding::for_label(label.as_bytes()).map(|encoding| {
        let (text, _, had_errors) = encoding.decode(bytes);
        (text.into_owned(), had_errors)
    })
}

// ---------------------------------------------------------------------------
// How bytes are decoded.
// ---------------------------------------------------------------------------

/// How bytes are decoded.
#[derive(Clone, Copy, Debug)]
pub enum DecodePlan<'a> {
    /// In the encoding that was named.
    Named(&'a str),
    /// In the encoding that the mark before the rest of the bytes tells.
    Marked(&'static str, usize),
    /// In UTF-8, of which every byte has to be a part.
    Plain,
}

/// The plan for bytes, with an encoding that may be named.
pub open spec fn is_plan(plan: DecodePlan<'_>, bytes: Seq<u8>, encoding: Option<&str>) -> bool {
    match encoding {
        Some(label) => plan matches DecodePlan::Named(l) && l@ == label@,
        None => match mark_of(bytes) {
            Some(mark) => plan matches DecodePlan::Marked(l, skip) && (l@, skip as int) == mark,
            None => plan is Plain,
        },
    }
}

/// The encoding that a byte order mark at the front tells, and the length of the
/// mark.
pub open spec fn mark_of(bytes: Seq<u8>) -> Option<(Seq<char>, int)> {
    if bytes.len() >= 3 && bytes[0] == 0xEF && bytes[1] == 0xBB && bytes[2] == 0xBF {
        Some(("utf-8"@, 3))
    } else if bytes.len() >= 2 && bytes[0] == 0xFF && bytes[1] == 0xFE {
        Some(("utf-16le"@, 2))
    } else if bytes.len() >= 2 && bytes[0] == 0xFE && bytes[1] == 0xFF {
        Some(("utf-16be"@, 2))
    } else {
        None
    }
}

/// What is made of the result of the decoder. Replaced characters are taken,
/// except where nothing told the encoding.
pub open spec fn finished(
    plan: DecodePlan<'_>,
    result: Option<(Seq<char>, bool)>,
    path: Seq<char>,
) -> Result<Seq<char>, ErrorV> {
    match plan {
        DecodePlan::Named(label) => match result {
            Some(d) => Ok(d.0),
            None => Err(ErrorV::UnknownEncoding(label@)),
        },
        DecodePlan::Marked(_, _) => Ok(result->Some_0.0),
        DecodePlan::Plain => if result->Some_0.1 {
            Err(ErrorV::UnrecognizedEncodingInFile(path))
        } else {
            Ok(result->Some_0.0)
        },
    }
}

/// The text that the bytes of the file `path` stand for. Bytes for which no buffer can be
/// had are refused.
pub open spec fn decoded(bytes: Seq<u8>, encoding: Option<Seq<char>>, path: Seq<char>) -> Result<
    Seq<char>,
    ErrorV,
> {
    match encoding {
        Some(label) => if can_be_decoded(label, bytes) {
            match decoded_as(label, bytes) {
                Some(d) => Ok(d.0),
                None => Err(ErrorV::UnknownEncoding(label)),
            }
        } else {
            Err(ErrorV::TooLarge(path))
        },
        None => match mark_of(bytes) {
            Some(mark) => if can_be_decoded(mark.0, bytes.skip(mark.1)) {
                Ok(decoded_as(mark.0, bytes.skip(mark.1))->Some_0.0)
            } else {
                Err(ErrorV::TooLarge(path))
            },
            None => if valid_utf8(bytes) {
                Ok(decode_utf8(bytes))
            } else {
                Err(ErrorV::UnrecognizedEncodingInFile(path))
            },
        },
    }
}

/// The text of bytes that are UTF-8, where nothing else was said of them: a byte
/// order mark is left out. Bytes that are no UTF-8 and have no mark are refused.
pub open spec fn is_utf8_text(
    bytes: Seq<u8>,
    path: Seq<char>,
    r: Result<Seq<char>, ErrorV>,
) -> bool {
    &&& mark_of(bytes) is None ==> r == (if valid_utf8(bytes) {
        Ok(decode_utf8(bytes))
    } else {
        Err(ErrorV::UnrecognizedEncodingInFile(path))
    })
    &&& mark_of(bytes) == Some(("utf-8"@, 3int)) && mark_of(bytes.skip(3)) is None && valid_utf8(
        bytes.skip(3),
    ) ==> r == Ok::<Seq<char>, ErrorV>(decode_utf8(bytes.skip(3)))
}

/// A result with its views.
pub open spec fn text_result(r: Result<String, Error>) -> Result<Seq<char>, ErrorV> {
    match r {
        Ok(s) => Ok(s@),
        Err(e) => Err(e.deep_view()),
    }
}

// ---------------------------------------------------------------------------
// Laws.
// ---------------------------------------------------------------------------

/// Text in UTF-8 begins with a byte order mark only where its first character is
/// the one that the mark encodes.
proof fn lemma_no_mark(s: Seq<char>)
    requires
        s.len() > 0 ==> s[0] != '\u{FEFF}',
    ensures
        mark_of(encode_utf8(s)) is None,
{
    let bytes = encode_utf8(s);
    if s.len() > 0 {
        encode_utf8_first_scalar(s);
        encode_utf8_valid_utf8(s);
        assert(valid_first_scalar(bytes));
        if bytes.len() >= 3 && bytes[0] == 0xEF && bytes[1] == 0xBB && bytes[2] == 0xBF {
            assert((((0xEFu8 & 0x0F) as u32) << 12) | (((0xBBu8 & 0x3f) as u32) << 6) | ((0xBFu8
                & 0x3f) as u32) == 0xFEFF) by (bit_vector);
            assert(decode_first_scalar(bytes) == codepoint_width_3(0xEF, 0xBB, 0xBF));
            char_u32_cast(s[0], 0xFEFF);
            char_u32_cast('\u{FEFF}', 0xFEFF);
        }
    }
}

/// Text that was written in UTF-8, with or without a byte order mark before it, is
/// read back. Text that itself begins with the character of the mark would lose it.
pub proof fn law_utf8_is_read_back(
    s: Seq<char>,
    path: Seq<char>,
    plain: Result<Seq<char>, ErrorV>,
    marked: Result<Seq<char>, ErrorV>,
)
    requires
        s.len() > 0 ==> s[0] != '\u{FEFF}',
        is_utf8_text(encode_utf8(s), path, plain),
        is_utf8_text(seq![0xEFu8, 0xBBu8, 0xBFu8] + encode_utf8(s), path, marked),
    ensures
        plain == Ok::<Seq<char>, ErrorV>(s),
        marked == Ok::<Seq<char>, ErrorV>(s),
{
    lemma_no_mark(s);
    encode_utf8_valid_utf8(s);
    encode_utf8_decode_utf8(s);
    let bytes = seq![0xEFu8, 0xBBu8, 0xBFu8] + encode_utf8(s);
    assert(bytes.skip(3) =~= encode_utf8(s));
}

/// A byte order mark tells the encoding of what follows it, whatever that is, and is left
/// out; an encoding that is named goes before any mark.
pub proof fn law_marks_tell_the_encoding(
    rest: Seq<u8>,
    path: Seq<char>,
    label: Seq<char>,
    bytes: Seq<u8>,
)
    ensures
        can_be_decoded("utf-8"@, rest) ==> decoded(
            seq![0xEFu8, 0xBBu8, 0xBFu8] + rest,
            None,
            path,
        ) == Ok::<Seq<char>, ErrorV>(decoded_as("utf-8"@, rest)->Some_0.0),
        can_be_decoded("utf-16le"@, rest) ==> decoded(seq![0xFFu8, 0xFEu8] + rest, None, path)
            == Ok::<Seq<char>, ErrorV>(decoded_as("utf-16le"@, rest)->Some_0.0),
        can_be_decoded("utf-16be"@, rest) ==> decoded(seq![0xFEu8, 0xFFu8] + rest, None, path)
            == Ok::<Seq<char>, ErrorV>(decoded_as("utf-16be"@, rest)->Some_0.0),
        can_be_decoded(label, bytes) && decoded_as(label, bytes) is Some ==> decoded(
            bytes,
            Some(label),
            path,
        ) == Ok::<Seq<char>, ErrorV>(decoded_as(label, bytes)->Some_0.0),
        can_be_decoded(label, bytes) && decoded_as(label, bytes) is None ==> decoded(
            bytes,
            Some(label),
            path,
        ) == Err::<Seq<char>, ErrorV>(ErrorV::UnknownEncoding(label)),
{
    let a = seq![0xEFu8, 0xBBu8, 0xBFu8] + rest;
    assert(a.skip(3) =~= rest);
    assert(a[0] == 0xEF && a[1] == 0xBB && a[2] == 0xBF);
    let b = seq![0xFFu8, 0xFEu8] + rest;
    assert(b.skip(2) =~= rest);
    assert(b[0] == 0xFF && b[1] == 0xFE);
    let c = seq![0xFEu8, 0xFFu8] + rest;
    assert(c.skip(2) =~= rest);
    assert(c[0] == 0xFE && c[1] == 0xFF);
}

/// Bytes that begin with no mark are UTF-8 or refused, with the name of the file.
pub proof fn law_unmarked_bytes_are_utf8(bytes: Seq<u8>, path: Seq<char>)
    requires
        bytes.len() > 0 ==> bytes[0] != 0xEF && bytes[0] != 0xFF && bytes[0] != 0xFE,
    ensures
        valid_utf8(bytes) ==> decoded(bytes, None, path) == Ok::<Seq<char>, ErrorV>(
            decode_utf8(bytes),
        ),
        !valid_utf8(bytes) ==> decoded(bytes, None, path) == Err::<Seq<char>, ErrorV>(
            ErrorV::UnrecognizedEncodingInFile(path),
        ),
{
}

// ---------------------------------------------------------------------------
// Executable operations.
// ---------------------------------------------------------------------------

/// How bytes are decoded, with an encoding that may be named.
pub fn plan_decoding<'a>(bytes: &[u8], encoding: Option<&'a str>) -> (r: DecodePlan<'a>)
    ensures
        is_plan(r, bytes@, encoding),
{
    match encoding {
        Some(label) => DecodePlan::Named(label),
        None => {
            if bytes.len() >= 3 && bytes[0] == 0xEF && bytes[1] == 0xBB && bytes[2] == 0xBF {
                DecodePlan::Marked("utf-8", 3)
            } else if bytes.len() >= 2 && bytes[0] == 0xFF && bytes[1] == 0xFE {
                DecodePlan::Marked("utf-16le", 2)
            } else if bytes.len() >= 2 && bytes[0] == 0xFE && bytes[1] == 0xFF {
                DecodePlan::Marked("utf-16be", 2)
            } else {
                DecodePlan::Plain
            }
        },
    }
}

/// Make of the result of the decoder the text of the file `path`, or an error.
pub fn finish_decoding(
    plan: DecodePlan<'_>,
    result: Option<(String, bool)>,
    path: &str,
) -> (r: Result<String, Error>)
    requires
        result is None ==> plan is Named,
    ensures
        text_result(r) == finished(
            plan,
            match result {
                Some(d) => Some((d.0@, d.1)),
                None => None,
            },
            path@,
        ),
{
    match result {
        None => match plan {
            DecodePlan::Named(label) => Err(Error::UnknownEncoding(label.to_owned())),
            _ => Err(Error::UnrecognizedEncodingInFile(path.to_owned())),
        },
        Some((text, replaced)) => match plan {
            DecodePlan::Plain => if replaced {
                Err(Error::UnrecognizedEncodingInFile(path.to_owned()))
            } else {
                Ok(text)
            },
            _ => Ok(text),
        },
    }
}

fn utf8_label(label: &str) -> (r: bool)
    ensures
        r == is_utf8_label(label@),
{
    same_chars(label, "utf-8") || same_chars(label, "UTF-8") || same_chars(label, "utf8")
        || same_chars(label, "UTF8")
}

fn utf16_label(label: &str) -> (r: bool)
    ensures
        r == is_utf16_label(label@),
{
    same_chars(label, "utf-16le") || same_chars(label, "utf-16be") || same_chars(label, "utf-16")
        || same_chars(label, "UTF-16LE") || same_chars(label, "UTF-16BE") || same_chars(
        label,
        "UTF-16",
    )
}

fn decodable(label: &str, bytes: &[u8]) -> (r: bool)
    ensures
        r == can_be_decoded(label@, bytes@),
{
    let n: usize = bytes.len();
    let most: usize = isize::MAX as usize;
    if n <= (most - 16) / 6 {
        return true;
    }
    if utf8_label(label) {
        return n <= (most - 16) / 4 || is_valid_utf8(bytes);
    }
    proof {
        reveal_strlit("utf-8");
        reveal_strlit("utf-16le");
        reveal_strlit("utf-16be");
        assert("utf-8"@.len() == 5 && "utf-16le"@.len() == 8 && "utf-16be"@.len() == 8);
    }
    if utf16_label(label) && !(bytes[0] == 0xEF && bytes[1] == 0xBB && bytes[2] == 0xBF) {
        return n / 2 + n % 2 <= (most - 1) / 3;
    }
    false
}

/// The text that the bytes of the file `path` stand for, in the encoding that is
/// named, or that a byte order mark tells, or else in UTF-8.
pub fn decode_bytes(bytes: &[u8], encoding: Option<&str>, path: &str) -> (r: Result<String, Error>)
    ensures
        text_result(r) == decoded(
            bytes@,
            opt_view(encoding),
            path@,
        ),
        encoding is None ==> is_utf8_text(bytes@, path@, text_result(r)),
{
    let plan = plan_decoding(bytes, encoding);
    let (label, rest): (&str, &[u8]) = match plan {
        DecodePlan::Named(label) => (label, bytes),
        DecodePlan::Marked(label, skip) => {
            let rest = vstd::slice::slice_subrange(bytes, skip, bytes.len());
            assert(rest@ =~= bytes@.skip(skip as int));
            (label, rest)
        },
        DecodePlan::Plain => ("utf-8", bytes),
    };
    if !decodable(label, rest) {
        return match plan {
            DecodePlan::Plain => Err(Error::UnrecognizedEncodingInFile(path.to_owned())),
            _ => Err(Error::TooLarge(path.to_owned())),
        };
    }
    let result = decode_labelled(label, rest);
    finish_decoding(plan, result, path)
}

/// What is made of what a source of files gave for `path`.
pub open spec fn read_text(
    read: Result<Cow<'_, [u8]>, FileResolverError>,
    encoding: Option<Seq<char>>,
    path: Seq<char>,
) -> Result<Seq<char>, ErrorV> {
    match read {
        Ok(bytes) => decoded(bytes@, encoding, path),
        Err(e) => Err(ErrorV::Io { message: e.message_view(), missing: e is NotFound }),
    }
}

/// Make text of what a source of files gave for `path`, or hand its error on.
pub fn decode_read(
    read: Result<Cow<'_, [u8]>, FileResolverError>,
    encoding: Option<&str>,
    path: &str,
) -> (r: Result<String, Error>)
    ensures
        text_result(r) == read_text(read, opt_view(encoding), path@),
        read matches Ok(bytes) ==> (encoding is None ==> is_utf8_text(
            bytes@,
            path@,
            text_result(r),
        )),
{
    match read {
        Err(e) => {
            let missing = match &e {
                FileResolverError::NotFound { .. } => true,
                FileResolverError::Io { .. } => false,
            };
            Err(Error::Io { message: e.message(), missing })
        },
        Ok(held) => {
            let bytes: &[u8] = match &held {
                Cow::Borrowed(b) => b,
                Cow::Owned(o) => o.as_slice(),
            };
            decode_bytes(bytes, encoding, path)
        },
    }
}

/// Read a file from a source of files and decode it. What the source gives is up
/// to it; whatever it is, the text or the error is what `read_text` makes of it.
pub fn read_and_decode_file(
    file_path: &str,
    encoding: Option<&str>,
    resolver: &DynFileResolver,
) -> (r: Result<String, Error>)
    ensures
        exists|read: Result<Cow<'_, [u8]>, FileResolverError>|
            #[trigger] call_ensures(DynFileResolver::read, (resolver, file_path), read)
                && text_result(r) == read_text(read, opt_view(encoding), file_path@),
{
    let read = resolver.read(file_path);
    let ghost given = read;
    let r = decode_read(read, encoding, file_path);
    assert(call_ensures(DynFileResolver::read, (resolver, file_path), given));
    r
}

} // verus!

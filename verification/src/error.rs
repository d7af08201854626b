//! Errors and warnings, and the places that they speak of.

use vstd::prelude::*;
use vstd::string::*;

verus! {

/// A place in a file. The file is missing where the source has no name.
#[derive(Debug)]
pub struct SourceLocation {
    pub file: Option<String>,
    pub line: usize,
    pub column: usize,
}

/// What a place is.
#[verifier::ext_equal]
pub struct PlaceV {
    pub file: Option<Seq<char>>,
    pub line: int,
    pub column: int,
}

impl DeepView for SourceLocation {
    type V = PlaceV;

    open spec fn deep_view(&self) -> PlaceV {
        PlaceV {
            file: match self.file {
                Some(f) => Some(f@),
                None => None,
            },
            line: self.line as int,
            column: self.column as int,
        }
    }
}

/// Why a source could not be taken.
#[derive(Debug)]
pub enum Error {
    /// A file could not be read: why, and whether it is that there is none.
    Io { message: String, missing: bool },
    /// A file that is no UTF-8 is larger than can be decoded.
    TooLarge(String),
    /// No encoding has this label.
    UnknownEncoding(String),
    /// The bytes of this file are no UTF-8, and nothing tells their encoding.
    UnrecognizedEncodingInFile(String),
    /// A conditional directive cannot be read, or is not closed by its own end.
    InvalidConditionalDirective(SourceLocation),
    /// The path of a file leads to no directory.
    InvalidIncludePath(SourceLocation, String),
}

/// What an error says.
#[verifier::ext_equal]
pub enum ErrorV {
    Io { message: Seq<char>, missing: bool },
    TooLarge(Seq<char>),
    UnknownEncoding(Seq<char>),
    UnrecognizedEncodingInFile(Seq<char>),
    InvalidConditionalDirective(PlaceV),
    InvalidIncludePath(PlaceV, Seq<char>),
}

impl DeepView for Error {
    type V = ErrorV;

    open spec fn deep_view(&self) -> ErrorV {
        match self {
            Error::Io { message, missing } => ErrorV::Io { message: message@, missing: *missing },
            Error::TooLarge(s) => ErrorV::TooLarge(s@),
            Error::UnknownEncoding(s) => ErrorV::UnknownEncoding(s@),
            Error::UnrecognizedEncodingInFile(s) => ErrorV::UnrecognizedEncodingInFile(s@),
            Error::InvalidConditionalDirective(l) => ErrorV::InvalidConditionalDirective(
                l.deep_view(),
            ),
            Error::InvalidIncludePath(l, s) => ErrorV::InvalidIncludePath(l.deep_view(), s@),
        }
    }
}

/// Something that was worked round, and where.
#[derive(Debug)]
pub struct Warning {
    pub message: String,
    pub location: Option<SourceLocation>,
}

/// What a warning says.
#[verifier::ext_equal]
pub struct WarningV {
    pub message: Seq<char>,
    pub location: Option<PlaceV>,
}

impl DeepView for Warning {
    type V = WarningV;

    open spec fn deep_view(&self) -> WarningV {
        WarningV {
            message: self.message@,
            location: match self.location {
                Some(l) => Some(l.deep_view()),
                None => None,
            },
        }
    }
}

/// The start of the line `line` of a file, by its path.
pub open spec fn place_of(file: Option<Seq<char>>, line: int) -> PlaceV {
    PlaceV { file, line, column: 1 }
}

/// The text of a path that may be missing.
pub open spec fn opt_view(s: Option<&str>) -> Option<Seq<char>> {
    match s {
        Some(t) => Some(t@),
        None => None,
    }
}

impl SourceLocation {
    /// The start of the line `line` of the file `file`.
    pub fn of_line(line: usize, file: Option<&str>) -> (r: SourceLocation)
        ensures
            r.deep_view() == place_of(opt_view(file), line as int),
    {
        SourceLocation {
            file: match file {
                Some(f) => Some(f.to_owned()),
                None => None,
            },
            line,
            column: 1,
        }
    }

    /// The same place.
    pub fn copied(&self) -> (r: SourceLocation)
        ensures
            r.deep_view() == self.deep_view(),
    {
        SourceLocation {
            file: match &self.file {
                Some(f) => Some(f.clone()),
                None => None,
            },
            line: self.line,
            column: self.column,
        }
    }
}

impl Warning {
    /// The same warning.
    pub fn copied(&self) -> (r: Warning)
        ensures
            r.deep_view() == self.deep_view(),
    {
        Warning {
            message: self.message.clone(),
            location: match &self.location {
                Some(l) => Some(l.copied()),
                None => None,
            },
        }
    }
}

} // verus!

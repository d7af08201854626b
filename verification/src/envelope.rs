//! What an embedder gets with a document: the warnings of the parser, behind them
//! those about its references, and what a linter finds.

use crate::error::{PlaceV, SourceLocation, Warning, WarningV};
use crate::model::document::Document;
use crate::validate::{self, collect_reference_warnings, reference_warnings, RefWarning};
use vstd::prelude::*;
use vstd::string::*;

verus! {

/// A warning as it is handed out.
#[derive(Debug)]
pub struct WarningJson {
    pub kind: String,
    pub message: String,
    pub line: Option<usize>,
    pub column: Option<usize>,
    pub file: Option<String>,
}

/// What a warning that is handed out says.
#[verifier::ext_equal]
pub struct EntryV {
    pub kind: Seq<char>,
    pub message: Seq<char>,
    pub line: Option<int>,
    pub column: Option<int>,
    pub file: Option<Seq<char>>,
}

/// A number that may be missing.
pub open spec fn opt_int(n: Option<usize>) -> Option<int> {
    match n {
        Some(k) => Some(k as int),
        None => None,
    }
}

impl DeepView for WarningJson {
    type V = EntryV;

    open spec fn deep_view(&self) -> EntryV {
        EntryV {
            kind: self.kind@,
            message: self.message@,
            line: opt_int(self.line),
            column: opt_int(self.column),
            file: match self.file {
                Some(f) => Some(f@),
                None => None,
            },
        }
    }
}

/// A warning of the parser, of a kind, as it is handed out: without a place there is
/// neither a line nor a column nor a file.
pub open spec fn entry_of(w: WarningV, kind: Seq<char>) -> EntryV {
    EntryV {
        kind,
        message: w.message,
        line: match w.location {
            Some(place) => Some(place.line),
            None => None,
        },
        column: match w.location {
            Some(place) => Some(place.column),
            None => None,
        },
        file: match w.location {
            Some(place) => place.file,
            None => None,
        },
    }
}

/// A warning about a reference as it is handed out. It stands in the document itself.
pub open spec fn reference_entry(w: validate::WarningV) -> EntryV {
    EntryV {
        kind: w.kind,
        message: w.message,
        line: opt_int(w.line),
        column: opt_int(w.column),
        file: None,
    }
}

/// A warning is handed out with what it says and where it stands; nothing is added.
pub proof fn law_warnings_are_handed_out(
    w: WarningV,
    kind: Seq<char>,
    r: validate::WarningV,
    place: PlaceV,
)
    ensures
        entry_of(w, kind).kind == kind,
        entry_of(w, kind).message == w.message,
        w.location == Some(place) ==> entry_of(w, kind).line == Some(place.line) && entry_of(
            w,
            kind,
        ).column == Some(place.column) && entry_of(w, kind).file == place.file,
        w.location is None ==> entry_of(w, kind).line is None && entry_of(w, kind).column is None
            && entry_of(w, kind).file is None,
        reference_entry(r).kind == r.kind,
        reference_entry(r).message == r.message,
        r.line matches Some(n) ==> reference_entry(r).line == Some(n as int),
        r.column matches Some(n) ==> reference_entry(r).column == Some(n as int),
        r.line is None ==> reference_entry(r).line is None,
        r.column is None ==> reference_entry(r).column is None,
        reference_entry(r).file is None,
{
}

/// Hand out a warning of the parser, of a kind.
pub fn warning_to_json(w: &Warning, kind: String) -> (r: WarningJson)
    ensures
        r.deep_view() == entry_of(w.deep_view(), kind@),
{
    match &w.location {
        Some(place) => WarningJson {
            kind,
            message: w.message.clone(),
            line: Some(place.line),
            column: Some(place.column),
            file: match &place.file {
                Some(f) => Some(f.clone()),
                None => None,
            },
        },
        None => WarningJson {
            kind,
            message: w.message.clone(),
            line: None,
            column: None,
            file: None,
        },
    }
}

fn reference_to_json(w: &RefWarning) -> (r: WarningJson)
    ensures
        r.deep_view() == reference_entry(w.deep_view()),
{
    WarningJson {
        kind: w.kind.to_owned(),
        message: w.message.clone(),
        line: w.line,
        column: w.column,
        file: None,
    }
}

/// All warnings of a document: those that the parser gave, and behind them those
/// about its references.
pub fn collect_all_warnings(given: Vec<WarningJson>, document: &Document<'_>) -> (r: Vec<
    WarningJson,
>)
    ensures
        r.deep_view() == given.deep_view() + reference_warnings(document.blocks@).map_values(
            |w: validate::WarningV| reference_entry(w),
        ),
{
    let found = collect_reference_warnings(document);
    let ghost fv = reference_warnings(document.blocks@).map_values(
        |w: validate::WarningV| reference_entry(w),
    );
    let ghost gv = given.deep_view();
    let mut out = given;
    let mut k: usize = 0;
    assert(gv + fv.take(0) =~= gv);
    assert(fv.len() == found@.len());
    while k < found.len()
        invariant
            k <= found@.len(),
            fv.len() == found@.len(),
            found.deep_view() == reference_warnings(document.blocks@),
            fv == reference_warnings(document.blocks@).map_values(
                |w: validate::WarningV| reference_entry(w),
            ),
            out.deep_view() == gv + fv.take(k as int),
        decreases found.len() - k,
    {
        let ghost before = out.deep_view();
        assert(found.deep_view()[k as int] == found@[k as int].deep_view());
        out.push(reference_to_json(&found[k]));
        assert(out.deep_view() =~= before.push(fv[k as int]));
        assert(gv + fv.take(k + 1) =~= (gv + fv.take(k as int)).push(fv[k as int]));
        k += 1;
    }
    assert(fv.take(k as int) =~= fv);
    out
}

// ---------------------------------------------------------------------------
// What a linter finds.
// ---------------------------------------------------------------------------

/// What a rule of a linter finds.
#[derive(Debug)]
pub struct LintDiagnostic {
    /// The name of the rule.
    pub lint: String,
    pub level: String,
    pub message: String,
    pub help: Option<String>,
    pub location: Option<SourceLocation>,
}

/// What a linter finds, as it is handed out.
#[derive(Debug)]
pub struct LintJson {
    pub lint: String,
    pub level: String,
    pub message: String,
    pub help: Option<String>,
    pub line: Option<usize>,
    pub column: Option<usize>,
}

/// A text that may be missing.
pub open spec fn opt_text(s: Option<String>) -> Option<Seq<char>> {
    match s {
        Some(t) => Some(t@),
        None => None,
    }
}

/// Whether `r` hands out `d`: what it says, and of its place the line and the
/// column.
pub open spec fn is_handed_out(d: LintDiagnostic, r: LintJson) -> bool {
    &&& r.lint@ == d.lint@
    &&& r.level@ == d.level@
    &&& r.message@ == d.message@
    &&& opt_text(r.help) == opt_text(d.help)
    &&& match d.location {
        Some(place) => r.line == Some(place.line) && r.column == Some(place.column),
        None => r.line is None && r.column is None,
    }
}

/// Hand out what a linter found.
pub fn lint_diag_to_json(d: &LintDiagnostic) -> (r: LintJson)
    ensures
        is_handed_out(*d, r),
{
    let (line, column): (Option<usize>, Option<usize>) = match &d.location {
        Some(place) => (Some(place.line), Some(place.column)),
        None => (None, None),
    };
    LintJson {
        lint: d.lint.clone(),
        level: d.level.clone(),
        message: d.message.clone(),
        help: match &d.help {
            Some(h) => Some(h.clone()),
            None => None,
        },
        line,
        column,
    }
}

} // verus!

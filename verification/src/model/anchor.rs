//! Anchors, which cross-references point to, and entries of a table of contents.

use crate::model::document::InlineNode;
use crate::model::{Location, Position};
use vstd::prelude::*;
use vstd::string::*;

verus! {

/// Section styles that take no automatic number. An appendix is numbered by
/// letters instead.
pub const UNNUMBERED_SECTION_STYLES: [&'static str; 8] = [
    "preface",
    "abstract",
    "dedication",
    "colophon",
    "bibliography",
    "glossary",
    "index",
    "appendix",
];

/// How an anchor is shown: `[[id]]` not at all, `[[[id]]]` with its label.
#[derive(Clone, Copy, Debug, PartialEq, Eq, Structural)]
pub enum AnchorKind {
    Inline,
    Bibliography,
}

impl Default for AnchorKind {
    /// An anchor that is not shown.
    fn default() -> (r: AnchorKind)
        ensures
            r == AnchorKind::Inline,
    {
        AnchorKind::Inline
    }
}

impl AnchorKind {
    /// Whether the anchor is not shown.
    #[must_use]
    pub fn is_inline(&self) -> (r: bool)
        ensures
            r == (*self == AnchorKind::Inline),
    {
        match self {
            AnchorKind::Inline => true,
            AnchorKind::Bibliography => false,
        }
    }
}

/// A point of the document that can be referred to.
#[derive(Clone, Copy, Debug, PartialEq)]
#[non_exhaustive]
pub struct Anchor<'a> {
    pub id: &'a str,
    pub xreflabel: Option<&'a str>,
    pub kind: AnchorKind,
    pub location: Location,
}

impl<'a> Default for Anchor<'a> {
    /// An anchor without id, at no place.
    fn default() -> (r: Anchor<'a>)
        ensures
            r.id@ == Seq::<char>::empty(),
            r.xreflabel is None,
            r.kind == AnchorKind::Inline,
            r.location == (Location {
                absolute_start: 0,
                absolute_end: 0,
                start: Position { line: 0, column: 0 },
                end: Position { line: 0, column: 0 },
            }),
    {
        proof {
            reveal_strlit("");
        }
        let id = "";
        assert(id@ =~= Seq::<char>::empty());
        Anchor { id, xreflabel: None, kind: AnchorKind::Inline, location: Location::default() }
    }
}

impl<'a> Anchor<'a> {
    /// An anchor that is not shown and has no label.
    #[must_use]
    pub fn new(id: &'a str, location: Location) -> (r: Anchor<'a>)
        ensures
            r == (Anchor { id, xreflabel: None, kind: AnchorKind::Inline, location }),
    {
        Anchor { id, xreflabel: None, kind: AnchorKind::default(), location }
    }

    /// The anchor with the label `xreflabel`.
    #[must_use]
    pub fn with_xreflabel(self, xreflabel: Option<&'a str>) -> (r: Anchor<'a>)
        ensures
            r == (Anchor { xreflabel, ..self }),
    {
        Anchor { id: self.id, xreflabel, kind: self.kind, location: self.location }
    }

    /// The anchor with the kind `kind`.
    #[must_use]
    pub fn with_kind(self, kind: AnchorKind) -> (r: Anchor<'a>)
        ensures
            r == (Anchor { kind, ..self }),
    {
        Anchor { id: self.id, xreflabel: self.xreflabel, kind, location: self.location }
    }
}

/// An entry of the table of contents.
#[derive(Debug, PartialEq)]
#[non_exhaustive]
pub struct TocEntry<'a> {
    /// The id that the entry links to.
    pub id: &'a str,
    /// The title of the section.
    pub title: Vec<InlineNode<'a>>,
    /// The level of the section: 1 at the top.
    pub level: u8,
    /// The label for cross-references, if the section has one.
    pub xreflabel: Option<&'a str>,
    /// Whether the section is numbered where sections are.
    pub numbered: bool,
    /// The style of the section, if it has one.
    pub style: Option<&'a str>,
}

} // verus!

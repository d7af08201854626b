//! Blocks and inline content of a parsed document.
//!
//! The nodes hold what anchors, cross-references and locations are read from.

use crate::model::anchor::Anchor;
use crate::model::{ColumnStyle, HorizontalAlignment, Location, VerticalAlignment};
use vstd::prelude::*;

verus! {

/// A run of text.
#[derive(Debug, PartialEq)]
pub struct Text<'a> {
    pub content: &'a str,
    pub location: Location,
}

/// A formatted span, such as bold text, with the id that it was given.
#[derive(Debug, PartialEq)]
pub struct Span<'a> {
    pub id: Option<&'a str>,
    pub content: Vec<InlineNode<'a>>,
    pub location: Location,
}

/// A footnote. Without content it refers to the footnote of the same id.
#[derive(Debug, PartialEq)]
pub struct Footnote<'a> {
    pub id: Option<&'a str>,
    pub content: Vec<InlineNode<'a>>,
    pub location: Location,
}

/// A link, URL or mail address with its text.
#[derive(Debug, PartialEq)]
pub struct Link<'a> {
    pub target: &'a str,
    pub text: Vec<InlineNode<'a>>,
    pub location: Location,
}

/// A reference to an anchor with its text.
#[derive(Debug, PartialEq)]
pub struct CrossReference<'a> {
    pub target: &'a str,
    pub text: Vec<InlineNode<'a>>,
    pub location: Location,
}

/// An inline macro.
#[derive(Debug, PartialEq)]
pub enum InlineMacro<'a> {
    Footnote(Footnote<'a>),
    Link(Link<'a>),
    Url(Link<'a>),
    Mailto(Link<'a>),
    Image(Media<'a>),
    CrossReference(CrossReference<'a>),
    /// A macro that holds no inline content.
    Other(Location),
}

/// A piece of inline content.
#[derive(Debug, PartialEq)]
pub enum InlineNode<'a> {
    PlainText(Text<'a>),
    RawText(Text<'a>),
    VerbatimText(Text<'a>),
    BoldText(Span<'a>),
    ItalicText(Span<'a>),
    MonospaceText(Span<'a>),
    HighlightText(Span<'a>),
    SubscriptText(Span<'a>),
    SuperscriptText(Span<'a>),
    CurvedQuotationText(Span<'a>),
    CurvedApostropheText(Span<'a>),
    InlineAnchor(Anchor<'a>),
    Macro(InlineMacro<'a>),
    /// Content that holds no other, such as a line break.
    Other(Location),
}

/// The id and the anchors that were written before a block.
#[derive(Debug, PartialEq)]
pub struct BlockMetadata<'a> {
    pub id: Option<Anchor<'a>>,
    pub anchors: Vec<Anchor<'a>>,
}

/// A section. Its `id` is the one that it is referred to by: the explicit one, or
/// the one made from the title.
#[derive(Debug, PartialEq)]
pub struct Section<'a> {
    pub id: &'a str,
    pub metadata: BlockMetadata<'a>,
    pub title: Vec<InlineNode<'a>>,
    pub content: Vec<Block<'a>>,
    pub location: Location,
}

/// A paragraph.
#[derive(Debug, PartialEq)]
pub struct Paragraph<'a> {
    pub metadata: BlockMetadata<'a>,
    pub title: Vec<InlineNode<'a>>,
    pub content: Vec<InlineNode<'a>>,
    pub location: Location,
}

/// What stands between the delimiters of a block.
#[derive(Debug, PartialEq)]
pub enum DelimitedBlockType<'a> {
    DelimitedExample(Vec<Block<'a>>),
    DelimitedOpen(Vec<Block<'a>>),
    DelimitedSidebar(Vec<Block<'a>>),
    DelimitedQuote(Vec<Block<'a>>),
    DelimitedListing(Vec<InlineNode<'a>>),
    DelimitedLiteral(Vec<InlineNode<'a>>),
    DelimitedPass(Vec<InlineNode<'a>>),
    DelimitedVerse(Vec<InlineNode<'a>>),
    DelimitedComment(Vec<InlineNode<'a>>),
    DelimitedTable(Table<'a>),
    /// Content that is neither blocks nor inline content, such as a formula.
    Other,
}

/// A block between delimiters.
#[derive(Debug, PartialEq)]
pub struct DelimitedBlock<'a> {
    pub metadata: BlockMetadata<'a>,
    pub title: Vec<InlineNode<'a>>,
    pub inner: DelimitedBlockType<'a>,
    pub location: Location,
}

/// A table. The header, the rows and the footer are rows of cells.
#[derive(Debug, PartialEq)]
pub struct Table<'a> {
    pub header: Option<TableRow<'a>>,
    pub rows: Vec<TableRow<'a>>,
    pub footer: Option<TableRow<'a>>,
    pub location: Location,
}

/// A row of a table.
#[derive(Debug, PartialEq)]
pub struct TableRow<'a> {
    pub columns: Vec<TableColumn<'a>>,
}

/// A cell of a table.
#[derive(Debug, PartialEq)]
pub struct TableColumn<'a> {
    pub content: Vec<Block<'a>>,
    pub colspan: usize,
    pub rowspan: usize,
    pub halign: Option<HorizontalAlignment>,
    pub valign: Option<VerticalAlignment>,
    pub style: Option<ColumnStyle>,
}

/// An item of an ordered or unordered list.
#[derive(Debug, PartialEq)]
pub struct ListItem<'a> {
    pub principal: Vec<InlineNode<'a>>,
    pub blocks: Vec<Block<'a>>,
    pub location: Location,
}

/// An ordered or unordered list.
#[derive(Debug, PartialEq)]
pub struct List<'a> {
    pub metadata: BlockMetadata<'a>,
    pub title: Vec<InlineNode<'a>>,
    pub items: Vec<ListItem<'a>>,
    pub location: Location,
}

/// A term and its description.
#[derive(Debug, PartialEq)]
pub struct DescriptionListItem<'a> {
    pub anchors: Vec<Anchor<'a>>,
    pub term: Vec<InlineNode<'a>>,
    pub principal_text: Vec<InlineNode<'a>>,
    pub description: Vec<Block<'a>>,
    pub location: Location,
}

/// A list of terms.
#[derive(Debug, PartialEq)]
pub struct DescriptionList<'a> {
    pub metadata: BlockMetadata<'a>,
    pub title: Vec<InlineNode<'a>>,
    pub items: Vec<DescriptionListItem<'a>>,
    pub location: Location,
}

/// A note, tip or warning.
#[derive(Debug, PartialEq)]
pub struct Admonition<'a> {
    pub metadata: BlockMetadata<'a>,
    pub title: Vec<InlineNode<'a>>,
    pub blocks: Vec<Block<'a>>,
    pub location: Location,
}

/// A block without content of its own but a title: an image, audio, video, page
/// break, discrete header or table of contents.
#[derive(Debug, PartialEq)]
pub struct Media<'a> {
    pub metadata: BlockMetadata<'a>,
    pub title: Vec<InlineNode<'a>>,
    pub location: Location,
}

/// The explanation of a callout.
#[derive(Debug, PartialEq)]
pub struct CalloutListItem<'a> {
    pub principal: Vec<InlineNode<'a>>,
    pub location: Location,
}

/// The explanations of the callouts of a listing.
#[derive(Debug, PartialEq)]
pub struct CalloutList<'a> {
    pub metadata: BlockMetadata<'a>,
    pub title: Vec<InlineNode<'a>>,
    pub items: Vec<CalloutListItem<'a>>,
    pub location: Location,
}

/// A line between two blocks. It holds its anchors itself.
#[derive(Debug, PartialEq)]
pub struct ThematicBreak<'a> {
    pub anchors: Vec<Anchor<'a>>,
    pub title: Vec<InlineNode<'a>>,
    pub location: Location,
}

/// A block.
#[derive(Debug, PartialEq)]
pub enum Block<'a> {
    Section(Section<'a>),
    Paragraph(Paragraph<'a>),
    DelimitedBlock(DelimitedBlock<'a>),
    UnorderedList(List<'a>),
    OrderedList(List<'a>),
    DescriptionList(DescriptionList<'a>),
    Admonition(Admonition<'a>),
    Image(Media<'a>),
    Audio(Media<'a>),
    Video(Media<'a>),
    PageBreak(Media<'a>),
    DiscreteHeader(Media<'a>),
    CalloutList(CalloutList<'a>),
    ThematicBreak(ThematicBreak<'a>),
    TableOfContents(Media<'a>),
    /// A block that holds neither anchors nor inline content, such as a comment.
    Other(Location),
}

/// A parsed document.
#[derive(Debug, PartialEq)]
pub struct Document<'a> {
    pub blocks: Vec<Block<'a>>,
    pub location: Location,
}

/// Where a macro stands.
pub open spec fn macro_location(m: InlineMacro<'_>) -> Location {
    match m {
        InlineMacro::Footnote(f) => f.location,
        InlineMacro::Link(l) => l.location,
        InlineMacro::Url(l) => l.location,
        InlineMacro::Mailto(l) => l.location,
        InlineMacro::Image(i) => i.location,
        InlineMacro::CrossReference(x) => x.location,
        InlineMacro::Other(location) => location,
    }
}

/// Where a piece of inline content stands.
pub open spec fn inline_location(node: InlineNode<'_>) -> Location {
    match node {
        InlineNode::PlainText(t) => t.location,
        InlineNode::RawText(t) => t.location,
        InlineNode::VerbatimText(t) => t.location,
        InlineNode::BoldText(s) => s.location,
        InlineNode::ItalicText(s) => s.location,
        InlineNode::MonospaceText(s) => s.location,
        InlineNode::HighlightText(s) => s.location,
        InlineNode::SubscriptText(s) => s.location,
        InlineNode::SuperscriptText(s) => s.location,
        InlineNode::CurvedQuotationText(s) => s.location,
        InlineNode::CurvedApostropheText(s) => s.location,
        InlineNode::InlineAnchor(a) => a.location,
        InlineNode::Macro(m) => macro_location(m),
        InlineNode::Other(location) => location,
    }
}

impl<'a> InlineMacro<'a> {
    /// Where the macro stands.
    pub fn location(&self) -> (r: Location)
        ensures
            r == macro_location(*self),
    {
        match self {
            InlineMacro::Footnote(f) => f.location,
            InlineMacro::Link(l) => l.location,
            InlineMacro::Url(l) => l.location,
            InlineMacro::Mailto(l) => l.location,
            InlineMacro::Image(i) => i.location,
            InlineMacro::CrossReference(x) => x.location,
            InlineMacro::Other(location) => *location,
        }
    }
}

impl<'a> InlineNode<'a> {
    /// Where the content stands.
    pub fn location(&self) -> (r: Location)
        ensures
            r == inline_location(*self),
    {
        match self {
            InlineNode::PlainText(t) => t.location,
            InlineNode::RawText(t) => t.location,
            InlineNode::VerbatimText(t) => t.location,
            InlineNode::BoldText(s) => s.location,
            InlineNode::ItalicText(s) => s.location,
            InlineNode::MonospaceText(s) => s.location,
            InlineNode::HighlightText(s) => s.location,
            InlineNode::SubscriptText(s) => s.location,
            InlineNode::SuperscriptText(s) => s.location,
            InlineNode::CurvedQuotationText(s) => s.location,
            InlineNode::CurvedApostropheText(s) => s.location,
            InlineNode::InlineAnchor(a) => a.location,
            InlineNode::Macro(m) => m.location(),
            InlineNode::Other(location) => *location,
        }
    }
}

} // verus!

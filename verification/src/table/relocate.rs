//! Moving every location of a cell's content.
//!
//! Where two nodes are said to be moved, the second is the first with every
//! location moved by the marks, and nothing else changed.

use crate::model::anchor::Anchor;
use crate::model::document::{
    Admonition,
    Block,
    BlockMetadata,
    CalloutList,
    CalloutListItem,
    CrossReference,
    DelimitedBlock,
    DelimitedBlockType,
    DescriptionList,
    DescriptionListItem,
    Footnote,
    InlineMacro,
    InlineNode,
    Link,
    List,
    ListItem,
    Media,
    Paragraph,
    Section,
    Span,
    Table,
    TableColumn,
    TableRow,
    Text,
    ThematicBreak,
};
use crate::table::escape::{move_location, moved_location, Mark};
use vstd::prelude::*;

verus! {

/// A run of text moved.
pub open spec fn text_moved(a: Text<'_>, b: Text<'_>, marks: Seq<Mark>) -> bool
    decreases a,
{
    &&& b.content == a.content
    &&& b.location == moved_location(a.location, marks)
}

/// A formatted span moved.
pub open spec fn span_moved(a: Span<'_>, b: Span<'_>, marks: Seq<Mark>) -> bool
    decreases a,
{
    &&& b.id == a.id
    &&& inlines_moved(a.content@, b.content@, marks)
    &&& b.location == moved_location(a.location, marks)
}

/// A footnote moved.
pub open spec fn footnote_moved(a: Footnote<'_>, b: Footnote<'_>, marks: Seq<Mark>) -> bool
    decreases a,
{
    &&& b.id == a.id
    &&& inlines_moved(a.content@, b.content@, marks)
    &&& b.location == moved_location(a.location, marks)
}

/// A link moved.
pub open spec fn link_moved(a: Link<'_>, b: Link<'_>, marks: Seq<Mark>) -> bool
    decreases a,
{
    &&& b.target == a.target
    &&& inlines_moved(a.text@, b.text@, marks)
    &&& b.location == moved_location(a.location, marks)
}

/// A reference moved.
pub open spec fn cross_reference_moved(
    a: CrossReference<'_>,
    b: CrossReference<'_>,
    marks: Seq<Mark>,
) -> bool
    decreases a,
{
    &&& b.target == a.target
    &&& inlines_moved(a.text@, b.text@, marks)
    &&& b.location == moved_location(a.location, marks)
}

/// An anchor moved.
pub open spec fn anchor_moved(a: Anchor<'_>, b: Anchor<'_>, marks: Seq<Mark>) -> bool
    decreases a,
{
    &&& b.id == a.id
    &&& b.xreflabel == a.xreflabel
    &&& b.kind == a.kind
    &&& b.location == moved_location(a.location, marks)
}

/// The metadata of a block moved.
pub open spec fn block_metadata_moved(
    a: BlockMetadata<'_>,
    b: BlockMetadata<'_>,
    marks: Seq<Mark>,
) -> bool
    decreases a,
{
    &&& optional_anchor_moved(a.id, b.id, marks)
    &&& anchors_moved(a.anchors@, b.anchors@, marks)
}

/// A block with metadata and a title moved.
pub open spec fn media_moved(a: Media<'_>, b: Media<'_>, marks: Seq<Mark>) -> bool
    decreases a,
{
    &&& block_metadata_moved(a.metadata, b.metadata, marks)
    &&& inlines_moved(a.title@, b.title@, marks)
    &&& b.location == moved_location(a.location, marks)
}

/// A section moved.
pub open spec fn section_moved(a: Section<'_>, b: Section<'_>, marks: Seq<Mark>) -> bool
    decreases a,
{
    &&& b.id == a.id
    &&& block_metadata_moved(a.metadata, b.metadata, marks)
    &&& inlines_moved(a.title@, b.title@, marks)
    &&& blocks_moved(a.content@, b.content@, marks)
    &&& b.location == moved_location(a.location, marks)
}

/// A paragraph moved.
pub open spec fn paragraph_moved(a: Paragraph<'_>, b: Paragraph<'_>, marks: Seq<Mark>) -> bool
    decreases a,
{
    &&& block_metadata_moved(a.metadata, b.metadata, marks)
    &&& inlines_moved(a.title@, b.title@, marks)
    &&& inlines_moved(a.content@, b.content@, marks)
    &&& b.location == moved_location(a.location, marks)
}

/// A block between delimiters moved.
pub open spec fn delimited_block_moved(
    a: DelimitedBlock<'_>,
    b: DelimitedBlock<'_>,
    marks: Seq<Mark>,
) -> bool
    decreases a,
{
    &&& block_metadata_moved(a.metadata, b.metadata, marks)
    &&& inlines_moved(a.title@, b.title@, marks)
    &&& delimited_block_type_moved(a.inner, b.inner, marks)
    &&& b.location == moved_location(a.location, marks)
}

/// A table moved.
pub open spec fn table_moved(a: Table<'_>, b: Table<'_>, marks: Seq<Mark>) -> bool
    decreases a,
{
    &&& optional_table_row_moved(a.header, b.header, marks)
    &&& rows_moved(a.rows@, b.rows@, marks)
    &&& optional_table_row_moved(a.footer, b.footer, marks)
    &&& b.location == moved_location(a.location, marks)
}

/// A row moved.
pub open spec fn table_row_moved(a: TableRow<'_>, b: TableRow<'_>, marks: Seq<Mark>) -> bool
    decreases a,
{
    &&& columns_moved(a.columns@, b.columns@, marks)
}

/// A cell moved.
pub open spec fn table_column_moved(
    a: TableColumn<'_>,
    b: TableColumn<'_>,
    marks: Seq<Mark>,
) -> bool
    decreases a,
{
    &&& blocks_moved(a.content@, b.content@, marks)
    &&& b.colspan == a.colspan
    &&& b.rowspan == a.rowspan
    &&& b.halign == a.halign
    &&& b.valign == a.valign
    &&& b.style == a.style
}

/// A list item moved.
pub open spec fn list_item_moved(a: ListItem<'_>, b: ListItem<'_>, marks: Seq<Mark>) -> bool
    decreases a,
{
    &&& inlines_moved(a.principal@, b.principal@, marks)
    &&& blocks_moved(a.blocks@, b.blocks@, marks)
    &&& b.location == moved_location(a.location, marks)
}

/// A list moved.
pub open spec fn list_moved(a: List<'_>, b: List<'_>, marks: Seq<Mark>) -> bool
    decreases a,
{
    &&& block_metadata_moved(a.metadata, b.metadata, marks)
    &&& inlines_moved(a.title@, b.title@, marks)
    &&& list_items_moved(a.items@, b.items@, marks)
    &&& b.location == moved_location(a.location, marks)
}

/// A term moved.
pub open spec fn description_list_item_moved(
    a: DescriptionListItem<'_>,
    b: DescriptionListItem<'_>,
    marks: Seq<Mark>,
) -> bool
    decreases a,
{
    &&& anchors_moved(a.anchors@, b.anchors@, marks)
    &&& inlines_moved(a.term@, b.term@, marks)
    &&& inlines_moved(a.principal_text@, b.principal_text@, marks)
    &&& blocks_moved(a.description@, b.description@, marks)
    &&& b.location == moved_location(a.location, marks)
}

/// A list of terms moved.
pub open spec fn description_list_moved(
    a: DescriptionList<'_>,
    b: DescriptionList<'_>,
    marks: Seq<Mark>,
) -> bool
    decreases a,
{
    &&& block_metadata_moved(a.metadata, b.metadata, marks)
    &&& inlines_moved(a.title@, b.title@, marks)
    &&& terms_moved(a.items@, b.items@, marks)
    &&& b.location == moved_location(a.location, marks)
}

/// An admonition moved.
pub open spec fn admonition_moved(a: Admonition<'_>, b: Admonition<'_>, marks: Seq<Mark>) -> bool
    decreases a,
{
    &&& block_metadata_moved(a.metadata, b.metadata, marks)
    &&& inlines_moved(a.title@, b.title@, marks)
    &&& blocks_moved(a.blocks@, b.blocks@, marks)
    &&& b.location == moved_location(a.location, marks)
}

/// The explanation of a callout moved.
pub open spec fn callout_list_item_moved(
    a: CalloutListItem<'_>,
    b: CalloutListItem<'_>,
    marks: Seq<Mark>,
) -> bool
    decreases a,
{
    &&& inlines_moved(a.principal@, b.principal@, marks)
    &&& b.location == moved_location(a.location, marks)
}

/// A list of callouts moved.
pub open spec fn callout_list_moved(
    a: CalloutList<'_>,
    b: CalloutList<'_>,
    marks: Seq<Mark>,
) -> bool
    decreases a,
{
    &&& block_metadata_moved(a.metadata, b.metadata, marks)
    &&& inlines_moved(a.title@, b.title@, marks)
    &&& callouts_moved(a.items@, b.items@, marks)
    &&& b.location == moved_location(a.location, marks)
}

/// A thematic break moved.
pub open spec fn thematic_break_moved(
    a: ThematicBreak<'_>,
    b: ThematicBreak<'_>,
    marks: Seq<Mark>,
) -> bool
    decreases a,
{
    &&& anchors_moved(a.anchors@, b.anchors@, marks)
    &&& inlines_moved(a.title@, b.title@, marks)
    &&& b.location == moved_location(a.location, marks)
}

/// An inline macro moved.
pub open spec fn inline_macro_moved(
    a: InlineMacro<'_>,
    b: InlineMacro<'_>,
    marks: Seq<Mark>,
) -> bool
    decreases a,
{
    match (a, b) {
        (InlineMacro::Footnote(x), InlineMacro::Footnote(y)) => footnote_moved(x, y, marks),
        (InlineMacro::Link(x), InlineMacro::Link(y)) => link_moved(x, y, marks),
        (InlineMacro::Url(x), InlineMacro::Url(y)) => link_moved(x, y, marks),
        (InlineMacro::Mailto(x), InlineMacro::Mailto(y)) => link_moved(x, y, marks),
        (InlineMacro::Image(x), InlineMacro::Image(y)) => media_moved(x, y, marks),
        (InlineMacro::CrossReference(x), InlineMacro::CrossReference(y)) => {
            cross_reference_moved(x, y, marks)
        },
        (InlineMacro::Other(x), InlineMacro::Other(y)) => y == moved_location(x, marks),
        _ => false,
    }
}

/// A piece of inline content moved.
pub open spec fn inline_node_moved(a: InlineNode<'_>, b: InlineNode<'_>, marks: Seq<Mark>) -> bool
    decreases a,
{
    match (a, b) {
        (InlineNode::PlainText(x), InlineNode::PlainText(y)) => text_moved(x, y, marks),
        (InlineNode::RawText(x), InlineNode::RawText(y)) => text_moved(x, y, marks),
        (InlineNode::VerbatimText(x), InlineNode::VerbatimText(y)) => text_moved(x, y, marks),
        (InlineNode::BoldText(x), InlineNode::BoldText(y)) => span_moved(x, y, marks),
        (InlineNode::ItalicText(x), InlineNode::ItalicText(y)) => span_moved(x, y, marks),
        (InlineNode::MonospaceText(x), InlineNode::MonospaceText(y)) => span_moved(x, y, marks),
        (InlineNode::HighlightText(x), InlineNode::HighlightText(y)) => span_moved(x, y, marks),
        (InlineNode::SubscriptText(x), InlineNode::SubscriptText(y)) => span_moved(x, y, marks),
        (InlineNode::SuperscriptText(x), InlineNode::SuperscriptText(y)) => span_moved(x, y, marks),
        (InlineNode::CurvedQuotationText(x), InlineNode::CurvedQuotationText(y)) => {
            span_moved(x, y, marks)
        },
        (InlineNode::CurvedApostropheText(x), InlineNode::CurvedApostropheText(y)) => {
            span_moved(x, y, marks)
        },
        (InlineNode::InlineAnchor(x), InlineNode::InlineAnchor(y)) => anchor_moved(x, y, marks),
        (InlineNode::Macro(x), InlineNode::Macro(y)) => inline_macro_moved(x, y, marks),
        (InlineNode::Other(x), InlineNode::Other(y)) => y == moved_location(x, marks),
        _ => false,
    }
}

/// What stands between delimiters moved.
pub open spec fn delimited_block_type_moved(
    a: DelimitedBlockType<'_>,
    b: DelimitedBlockType<'_>,
    marks: Seq<Mark>,
) -> bool
    decreases a,
{
    match (a, b) {
        (DelimitedBlockType::DelimitedExample(x), DelimitedBlockType::DelimitedExample(y)) => {
            blocks_moved(x@, y@, marks)
        },
        (DelimitedBlockType::DelimitedOpen(x), DelimitedBlockType::DelimitedOpen(y)) => {
            blocks_moved(x@, y@, marks)
        },
        (DelimitedBlockType::DelimitedSidebar(x), DelimitedBlockType::DelimitedSidebar(y)) => {
            blocks_moved(x@, y@, marks)
        },
        (DelimitedBlockType::DelimitedQuote(x), DelimitedBlockType::DelimitedQuote(y)) => {
            blocks_moved(x@, y@, marks)
        },
        (DelimitedBlockType::DelimitedListing(x), DelimitedBlockType::DelimitedListing(y)) => {
            inlines_moved(x@, y@, marks)
        },
        (DelimitedBlockType::DelimitedLiteral(x), DelimitedBlockType::DelimitedLiteral(y)) => {
            inlines_moved(x@, y@, marks)
        },
        (DelimitedBlockType::DelimitedPass(x), DelimitedBlockType::DelimitedPass(y)) => {
            inlines_moved(x@, y@, marks)
        },
        (DelimitedBlockType::DelimitedVerse(x), DelimitedBlockType::DelimitedVerse(y)) => {
            inlines_moved(x@, y@, marks)
        },
        (DelimitedBlockType::DelimitedComment(x), DelimitedBlockType::DelimitedComment(y)) => {
            inlines_moved(x@, y@, marks)
        },
        (DelimitedBlockType::DelimitedTable(x), DelimitedBlockType::DelimitedTable(y)) => {
            table_moved(x, y, marks)
        },
        (DelimitedBlockType::Other, DelimitedBlockType::Other) => true,
        _ => false,
    }
}

/// A block moved.
pub open spec fn block_moved(a: Block<'_>, b: Block<'_>, marks: Seq<Mark>) -> bool
    decreases a,
{
    match (a, b) {
        (Block::Section(x), Block::Section(y)) => section_moved(x, y, marks),
        (Block::Paragraph(x), Block::Paragraph(y)) => paragraph_moved(x, y, marks),
        (Block::DelimitedBlock(x), Block::DelimitedBlock(y)) => delimited_block_moved(x, y, marks),
        (Block::UnorderedList(x), Block::UnorderedList(y)) => list_moved(x, y, marks),
        (Block::OrderedList(x), Block::OrderedList(y)) => list_moved(x, y, marks),
        (Block::DescriptionList(x), Block::DescriptionList(y)) => {
            description_list_moved(x, y, marks)
        },
        (Block::Admonition(x), Block::Admonition(y)) => admonition_moved(x, y, marks),
        (Block::Image(x), Block::Image(y)) => media_moved(x, y, marks),
        (Block::Audio(x), Block::Audio(y)) => media_moved(x, y, marks),
        (Block::Video(x), Block::Video(y)) => media_moved(x, y, marks),
        (Block::PageBreak(x), Block::PageBreak(y)) => media_moved(x, y, marks),
        (Block::DiscreteHeader(x), Block::DiscreteHeader(y)) => media_moved(x, y, marks),
        (Block::CalloutList(x), Block::CalloutList(y)) => callout_list_moved(x, y, marks),
        (Block::ThematicBreak(x), Block::ThematicBreak(y)) => thematic_break_moved(x, y, marks),
        (Block::TableOfContents(x), Block::TableOfContents(y)) => media_moved(x, y, marks),
        (Block::Other(x), Block::Other(y)) => y == moved_location(x, marks),
        _ => false,
    }
}

/// An anchor that may be missing, moved.
pub open spec fn optional_anchor_moved(
    a: Option<Anchor<'_>>,
    b: Option<Anchor<'_>>,
    marks: Seq<Mark>,
) -> bool
    decreases a,
{
    match (a, b) {
        (Some(x), Some(y)) => anchor_moved(x, y, marks),
        (None, None) => true,
        _ => false,
    }
}

/// A row that may be missing, moved.
pub open spec fn optional_table_row_moved(
    a: Option<TableRow<'_>>,
    b: Option<TableRow<'_>>,
    marks: Seq<Mark>,
) -> bool
    decreases a,
{
    match (a, b) {
        (Some(x), Some(y)) => table_row_moved(x, y, marks),
        (None, None) => true,
        _ => false,
    }
}

/// Anchors moved, one by one.
pub open spec fn anchors_moved(
    a: Seq<Anchor<'_>>,
    b: Seq<Anchor<'_>>,
    marks: Seq<Mark>,
) -> bool
    decreases a,
{
    &&& a.len() == b.len()
    &&& forall|k: int| 0 <= k < a.len() ==> anchor_moved(#[trigger] a[k], b[k], marks)
}

/// Blocks moved, one by one.
pub open spec fn blocks_moved(
    a: Seq<Block<'_>>,
    b: Seq<Block<'_>>,
    marks: Seq<Mark>,
) -> bool
    decreases a,
{
    &&& a.len() == b.len()
    &&& forall|k: int| 0 <= k < a.len() ==> block_moved(#[trigger] a[k], b[k], marks)
}

/// Explanations of callouts moved, one by one.
pub open spec fn callouts_moved(
    a: Seq<CalloutListItem<'_>>,
    b: Seq<CalloutListItem<'_>>,
    marks: Seq<Mark>,
) -> bool
    decreases a,
{
    &&& a.len() == b.len()
    &&& forall|k: int| 0 <= k < a.len() ==> callout_list_item_moved(#[trigger] a[k], b[k], marks)
}

/// Terms moved, one by one.
pub open spec fn terms_moved(
    a: Seq<DescriptionListItem<'_>>,
    b: Seq<DescriptionListItem<'_>>,
    marks: Seq<Mark>,
) -> bool
    decreases a,
{
    &&& a.len() == b.len()
    &&& forall|k: int| 0 <= k < a.len() ==> description_list_item_moved(#[trigger] a[k], b[k], marks)
}

/// Inline content moved, one by one.
pub open spec fn inlines_moved(
    a: Seq<InlineNode<'_>>,
    b: Seq<InlineNode<'_>>,
    marks: Seq<Mark>,
) -> bool
    decreases a,
{
    &&& a.len() == b.len()
    &&& forall|k: int| 0 <= k < a.len() ==> inline_node_moved(#[trigger] a[k], b[k], marks)
}

/// List items moved, one by one.
pub open spec fn list_items_moved(
    a: Seq<ListItem<'_>>,
    b: Seq<ListItem<'_>>,
    marks: Seq<Mark>,
) -> bool
    decreases a,
{
    &&& a.len() == b.len()
    &&& forall|k: int| 0 <= k < a.len() ==> list_item_moved(#[trigger] a[k], b[k], marks)
}

/// Cells moved, one by one.
pub open spec fn columns_moved(
    a: Seq<TableColumn<'_>>,
    b: Seq<TableColumn<'_>>,
    marks: Seq<Mark>,
) -> bool
    decreases a,
{
    &&& a.len() == b.len()
    &&& forall|k: int| 0 <= k < a.len() ==> table_column_moved(#[trigger] a[k], b[k], marks)
}

/// Rows moved, one by one.
pub open spec fn rows_moved(
    a: Seq<TableRow<'_>>,
    b: Seq<TableRow<'_>>,
    marks: Seq<Mark>,
) -> bool
    decreases a,
{
    &&& a.len() == b.len()
    &&& forall|k: int| 0 <= k < a.len() ==> table_row_moved(#[trigger] a[k], b[k], marks)
}

// ---------------------------------------------------------------------------
// Executable operations.
// ---------------------------------------------------------------------------

fn move_text<'a>(node: &mut Text<'a>, marks: &Vec<Mark>)
    ensures
        text_moved(*old(node), *final(node), marks@),
    decreases *old(node),
{
    move_location(&mut node.location, marks);
}

fn move_span<'a>(node: &mut Span<'a>, marks: &Vec<Mark>)
    ensures
        span_moved(*old(node), *final(node), marks@),
    decreases *old(node),
{
    move_inlines(&mut node.content, marks);
    move_location(&mut node.location, marks);
}

fn move_footnote<'a>(node: &mut Footnote<'a>, marks: &Vec<Mark>)
    ensures
        footnote_moved(*old(node), *final(node), marks@),
    decreases *old(node),
{
    move_inlines(&mut node.content, marks);
    move_location(&mut node.location, marks);
}

fn move_link<'a>(node: &mut Link<'a>, marks: &Vec<Mark>)
    ensures
        link_moved(*old(node), *final(node), marks@),
    decreases *old(node),
{
    move_inlines(&mut node.text, marks);
    move_location(&mut node.location, marks);
}

fn move_cross_reference<'a>(node: &mut CrossReference<'a>, marks: &Vec<Mark>)
    ensures
        cross_reference_moved(*old(node), *final(node), marks@),
    decreases *old(node),
{
    move_inlines(&mut node.text, marks);
    move_location(&mut node.location, marks);
}

fn move_anchor<'a>(node: &mut Anchor<'a>, marks: &Vec<Mark>)
    ensures
        anchor_moved(*old(node), *final(node), marks@),
    decreases *old(node),
{
    move_location(&mut node.location, marks);
}

fn move_block_metadata<'a>(node: &mut BlockMetadata<'a>, marks: &Vec<Mark>)
    ensures
        block_metadata_moved(*old(node), *final(node), marks@),
    decreases *old(node),
{
    move_optional_anchor(&mut node.id, marks);
    move_anchors(&mut node.anchors, marks);
}

fn move_media<'a>(node: &mut Media<'a>, marks: &Vec<Mark>)
    ensures
        media_moved(*old(node), *final(node), marks@),
    decreases *old(node),
{
    move_block_metadata(&mut node.metadata, marks);
    move_inlines(&mut node.title, marks);
    move_location(&mut node.location, marks);
}

fn move_section<'a>(node: &mut Section<'a>, marks: &Vec<Mark>)
    ensures
        section_moved(*old(node), *final(node), marks@),
    decreases *old(node),
{
    move_block_metadata(&mut node.metadata, marks);
    move_inlines(&mut node.title, marks);
    move_blocks(&mut node.content, marks);
    move_location(&mut node.location, marks);
}

fn move_paragraph<'a>(node: &mut Paragraph<'a>, marks: &Vec<Mark>)
    ensures
        paragraph_moved(*old(node), *final(node), marks@),
    decreases *old(node),
{
    move_block_metadata(&mut node.metadata, marks);
    move_inlines(&mut node.title, marks);
    move_inlines(&mut node.content, marks);
    move_location(&mut node.location, marks);
}

fn move_delimited_block<'a>(node: &mut DelimitedBlock<'a>, marks: &Vec<Mark>)
    ensures
        delimited_block_moved(*old(node), *final(node), marks@),
    decreases *old(node),
{
    move_block_metadata(&mut node.metadata, marks);
    move_inlines(&mut node.title, marks);
    move_delimited_block_type(&mut node.inner, marks);
    move_location(&mut node.location, marks);
}

fn move_table<'a>(node: &mut Table<'a>, marks: &Vec<Mark>)
    ensures
        table_moved(*old(node), *final(node), marks@),
    decreases *old(node),
{
    move_optional_table_row(&mut node.header, marks);
    move_rows(&mut node.rows, marks);
    move_optional_table_row(&mut node.footer, marks);
    move_location(&mut node.location, marks);
}

fn move_table_row<'a>(node: &mut TableRow<'a>, marks: &Vec<Mark>)
    ensures
        table_row_moved(*old(node), *final(node), marks@),
    decreases *old(node),
{
    move_columns(&mut node.columns, marks);
}

fn move_table_column<'a>(node: &mut TableColumn<'a>, marks: &Vec<Mark>)
    ensures
        table_column_moved(*old(node), *final(node), marks@),
    decreases *old(node),
{
    move_blocks(&mut node.content, marks);
}

fn move_list_item<'a>(node: &mut ListItem<'a>, marks: &Vec<Mark>)
    ensures
        list_item_moved(*old(node), *final(node), marks@),
    decreases *old(node),
{
    move_inlines(&mut node.principal, marks);
    move_blocks(&mut node.blocks, marks);
    move_location(&mut node.location, marks);
}

fn move_list<'a>(node: &mut List<'a>, marks: &Vec<Mark>)
    ensures
        list_moved(*old(node), *final(node), marks@),
    decreases *old(node),
{
    move_block_metadata(&mut node.metadata, marks);
    move_inlines(&mut node.title, marks);
    move_list_items(&mut node.items, marks);
    move_location(&mut node.location, marks);
}

fn move_description_list_item<'a>(node: &mut DescriptionListItem<'a>, marks: &Vec<Mark>)
    ensures
        description_list_item_moved(*old(node), *final(node), marks@),
    decreases *old(node),
{
    move_anchors(&mut node.anchors, marks);
    move_inlines(&mut node.term, marks);
    move_inlines(&mut node.principal_text, marks);
    move_blocks(&mut node.description, marks);
    move_location(&mut node.location, marks);
}

fn move_description_list<'a>(node: &mut DescriptionList<'a>, marks: &Vec<Mark>)
    ensures
        description_list_moved(*old(node), *final(node), marks@),
    decreases *old(node),
{
    move_block_metadata(&mut node.metadata, marks);
    move_inlines(&mut node.title, marks);
    move_terms(&mut node.items, marks);
    move_location(&mut node.location, marks);
}

fn move_admonition<'a>(node: &mut Admonition<'a>, marks: &Vec<Mark>)
    ensures
        admonition_moved(*old(node), *final(node), marks@),
    decreases *old(node),
{
    move_block_metadata(&mut node.metadata, marks);
    move_inlines(&mut node.title, marks);
    move_blocks(&mut node.blocks, marks);
    move_location(&mut node.location, marks);
}

fn move_callout_list_item<'a>(node: &mut CalloutListItem<'a>, marks: &Vec<Mark>)
    ensures
        callout_list_item_moved(*old(node), *final(node), marks@),
    decreases *old(node),
{
    move_inlines(&mut node.principal, marks);
    move_location(&mut node.location, marks);
}

fn move_callout_list<'a>(node: &mut CalloutList<'a>, marks: &Vec<Mark>)
    ensures
        callout_list_moved(*old(node), *final(node), marks@),
    decreases *old(node),
{
    move_block_metadata(&mut node.metadata, marks);
    move_inlines(&mut node.title, marks);
    move_callouts(&mut node.items, marks);
    move_location(&mut node.location, marks);
}

fn move_thematic_break<'a>(node: &mut ThematicBreak<'a>, marks: &Vec<Mark>)
    ensures
        thematic_break_moved(*old(node), *final(node), marks@),
    decreases *old(node),
{
    move_anchors(&mut node.anchors, marks);
    move_inlines(&mut node.title, marks);
    move_location(&mut node.location, marks);
}

fn move_inline_macro<'a>(node: &mut InlineMacro<'a>, marks: &Vec<Mark>)
    ensures
        inline_macro_moved(*old(node), *final(node), marks@),
    decreases *old(node),
{
    match node {
        InlineMacro::Footnote(x) => move_footnote(x, marks),
        InlineMacro::Link(x) => move_link(x, marks),
        InlineMacro::Url(x) => move_link(x, marks),
        InlineMacro::Mailto(x) => move_link(x, marks),
        InlineMacro::Image(x) => move_media(x, marks),
        InlineMacro::CrossReference(x) => move_cross_reference(x, marks),
        InlineMacro::Other(x) => move_location(x, marks),
    }
}

fn move_inline_node<'a>(node: &mut InlineNode<'a>, marks: &Vec<Mark>)
    ensures
        inline_node_moved(*old(node), *final(node), marks@),
    decreases *old(node),
{
    match node {
        InlineNode::PlainText(x) => move_text(x, marks),
        InlineNode::RawText(x) => move_text(x, marks),
        InlineNode::VerbatimText(x) => move_text(x, marks),
        InlineNode::BoldText(x) => move_span(x, marks),
        InlineNode::ItalicText(x) => move_span(x, marks),
        InlineNode::MonospaceText(x) => move_span(x, marks),
        InlineNode::HighlightText(x) => move_span(x, marks),
        InlineNode::SubscriptText(x) => move_span(x, marks),
        InlineNode::SuperscriptText(x) => move_span(x, marks),
        InlineNode::CurvedQuotationText(x) => move_span(x, marks),
        InlineNode::CurvedApostropheText(x) => move_span(x, marks),
        InlineNode::InlineAnchor(x) => move_anchor(x, marks),
        InlineNode::Macro(x) => move_inline_macro(x, marks),
        InlineNode::Other(x) => move_location(x, marks),
    }
}

fn move_delimited_block_type<'a>(node: &mut DelimitedBlockType<'a>, marks: &Vec<Mark>)
    ensures
        delimited_block_type_moved(*old(node), *final(node), marks@),
    decreases *old(node),
{
    match node {
        DelimitedBlockType::DelimitedExample(x) => move_blocks(x, marks),
        DelimitedBlockType::DelimitedOpen(x) => move_blocks(x, marks),
        DelimitedBlockType::DelimitedSidebar(x) => move_blocks(x, marks),
        DelimitedBlockType::DelimitedQuote(x) => move_blocks(x, marks),
        DelimitedBlockType::DelimitedListing(x) => move_inlines(x, marks),
        DelimitedBlockType::DelimitedLiteral(x) => move_inlines(x, marks),
        DelimitedBlockType::DelimitedPass(x) => move_inlines(x, marks),
        DelimitedBlockType::DelimitedVerse(x) => move_inlines(x, marks),
        DelimitedBlockType::DelimitedComment(x) => move_inlines(x, marks),
        DelimitedBlockType::DelimitedTable(x) => move_table(x, marks),
        DelimitedBlockType::Other => {},
    }
}

fn move_block<'a>(node: &mut Block<'a>, marks: &Vec<Mark>)
    ensures
        block_moved(*old(node), *final(node), marks@),
    decreases *old(node),
{
    match node {
        Block::Section(x) => move_section(x, marks),
        Block::Paragraph(x) => move_paragraph(x, marks),
        Block::DelimitedBlock(x) => move_delimited_block(x, marks),
        Block::UnorderedList(x) => move_list(x, marks),
        Block::OrderedList(x) => move_list(x, marks),
        Block::DescriptionList(x) => move_description_list(x, marks),
        Block::Admonition(x) => move_admonition(x, marks),
        Block::Image(x) => move_media(x, marks),
        Block::Audio(x) => move_media(x, marks),
        Block::Video(x) => move_media(x, marks),
        Block::PageBreak(x) => move_media(x, marks),
        Block::DiscreteHeader(x) => move_media(x, marks),
        Block::CalloutList(x) => move_callout_list(x, marks),
        Block::ThematicBreak(x) => move_thematic_break(x, marks),
        Block::TableOfContents(x) => move_media(x, marks),
        Block::Other(x) => move_location(x, marks),
    }
}

fn move_optional_anchor<'a>(node: &mut Option<Anchor<'a>>, marks: &Vec<Mark>)
    ensures
        optional_anchor_moved(*old(node), *final(node), marks@),
    decreases *old(node),
{
    match node {
        Some(x) => move_anchor(x, marks),
        None => {},
    }
}

fn move_optional_table_row<'a>(node: &mut Option<TableRow<'a>>, marks: &Vec<Mark>)
    ensures
        optional_table_row_moved(*old(node), *final(node), marks@),
    decreases *old(node),
{
    match node {
        Some(x) => move_table_row(x, marks),
        None => {},
    }
}

fn move_anchors<'a>(nodes: &mut Vec<Anchor<'a>>, marks: &Vec<Mark>)
    ensures
        anchors_moved(old(nodes)@, final(nodes)@, marks@),
    decreases old(nodes)@,
{
    let n: usize = nodes.len();
    let mut i: usize = 0;
    while i < n
        invariant
            i <= n,
            n == nodes@.len(),
            n == old(nodes)@.len(),
            forall|k: int|
                0 <= k < i ==> anchor_moved(#[trigger] old(nodes)@[k], nodes@[k], marks@),
            forall|k: int| i <= k < n ==> nodes@[k] == old(nodes)@[k],
        decreases n - i,
    {
        move_anchor(&mut nodes[i], marks);
        i += 1;
    }
}

/// Move every location of the blocks.
pub fn move_blocks<'a>(nodes: &mut Vec<Block<'a>>, marks: &Vec<Mark>)
    ensures
        blocks_moved(old(nodes)@, final(nodes)@, marks@),
    decreases old(nodes)@,
{
    let n: usize = nodes.len();
    let mut i: usize = 0;
    while i < n
        invariant
            i <= n,
            n == nodes@.len(),
            n == old(nodes)@.len(),
            forall|k: int|
                0 <= k < i ==> block_moved(#[trigger] old(nodes)@[k], nodes@[k], marks@),
            forall|k: int| i <= k < n ==> nodes@[k] == old(nodes)@[k],
        decreases n - i,
    {
        move_block(&mut nodes[i], marks);
        i += 1;
    }
}

fn move_callouts<'a>(nodes: &mut Vec<CalloutListItem<'a>>, marks: &Vec<Mark>)
    ensures
        callouts_moved(old(nodes)@, final(nodes)@, marks@),
    decreases old(nodes)@,
{
    let n: usize = nodes.len();
    let mut i: usize = 0;
    while i < n
        invariant
            i <= n,
            n == nodes@.len(),
            n == old(nodes)@.len(),
            forall|k: int|
                0 <= k < i ==> callout_list_item_moved(#[trigger] old(nodes)@[k], nodes@[k], marks@),
            forall|k: int| i <= k < n ==> nodes@[k] == old(nodes)@[k],
        decreases n - i,
    {
        move_callout_list_item(&mut nodes[i], marks);
        i += 1;
    }
}

fn move_terms<'a>(nodes: &mut Vec<DescriptionListItem<'a>>, marks: &Vec<Mark>)
    ensures
        terms_moved(old(nodes)@, final(nodes)@, marks@),
    decreases old(nodes)@,
{
    let n: usize = nodes.len();
    let mut i: usize = 0;
    while i < n
        invariant
            i <= n,
            n == nodes@.len(),
            n == old(nodes)@.len(),
            forall|k: int|
                0 <= k < i ==> description_list_item_moved(#[trigger] old(nodes)@[k], nodes@[k], marks@),
            forall|k: int| i <= k < n ==> nodes@[k] == old(nodes)@[k],
        decreases n - i,
    {
        move_description_list_item(&mut nodes[i], marks);
        i += 1;
    }
}

fn move_inlines<'a>(nodes: &mut Vec<InlineNode<'a>>, marks: &Vec<Mark>)
    ensures
        inlines_moved(old(nodes)@, final(nodes)@, marks@),
    decreases old(nodes)@,
{
    let n: usize = nodes.len();
    let mut i: usize = 0;
    while i < n
        invariant
            i <= n,
            n == nodes@.len(),
            n == old(nodes)@.len(),
            forall|k: int|
                0 <= k < i ==> inline_node_moved(#[trigger] old(nodes)@[k], nodes@[k], marks@),
            forall|k: int| i <= k < n ==> nodes@[k] == old(nodes)@[k],
        decreases n - i,
    {
        move_inline_node(&mut nodes[i], marks);
        i += 1;
    }
}

fn move_list_items<'a>(nodes: &mut Vec<ListItem<'a>>, marks: &Vec<Mark>)
    ensures
        list_items_moved(old(nodes)@, final(nodes)@, marks@),
    decreases old(nodes)@,
{
    let n: usize = nodes.len();
    let mut i: usize = 0;
    while i < n
        invariant
            i <= n,
            n == nodes@.len(),
            n == old(nodes)@.len(),
            forall|k: int|
                0 <= k < i ==> list_item_moved(#[trigger] old(nodes)@[k], nodes@[k], marks@),
            forall|k: int| i <= k < n ==> nodes@[k] == old(nodes)@[k],
        decreases n - i,
    {
        move_list_item(&mut nodes[i], marks);
        i += 1;
    }
}

fn move_columns<'a>(nodes: &mut Vec<TableColumn<'a>>, marks: &Vec<Mark>)
    ensures
        columns_moved(old(nodes)@, final(nodes)@, marks@),
    decreases old(nodes)@,
{
    let n: usize = nodes.len();
    let mut i: usize = 0;
    while i < n
        invariant
            i <= n,
            n == nodes@.len(),
            n == old(nodes)@.len(),
            forall|k: int|
                0 <= k < i ==> table_column_moved(#[trigger] old(nodes)@[k], nodes@[k], marks@),
            forall|k: int| i <= k < n ==> nodes@[k] == old(nodes)@[k],
        decreases n - i,
    {
        move_table_column(&mut nodes[i], marks);
        i += 1;
    }
}

fn move_rows<'a>(nodes: &mut Vec<TableRow<'a>>, marks: &Vec<Mark>)
    ensures
        rows_moved(old(nodes)@, final(nodes)@, marks@),
    decreases old(nodes)@,
{
    let n: usize = nodes.len();
    let mut i: usize = 0;
    while i < n
        invariant
            i <= n,
            n == nodes@.len(),
            n == old(nodes)@.len(),
            forall|k: int|
                0 <= k < i ==> table_row_moved(#[trigger] old(nodes)@[k], nodes@[k], marks@),
            forall|k: int| i <= k < n ==> nodes@[k] == old(nodes)@[k],
        decreases n - i,
    {
        move_table_row(&mut nodes[i], marks);
        i += 1;
    }
}

} // verus!

//! Checking the references of a document: anchors that are declared twice, and
//! cross-references to anchors that are not there.

use crate::model::anchor::Anchor;
use crate::model::document::{
    inline_location, Admonition, Block, BlockMetadata, CalloutList, CalloutListItem,
    DelimitedBlockType, DescriptionList, DescriptionListItem, Document, InlineMacro, InlineNode,
    List, ListItem, Media, Section, Span, Table, TableColumn, TableRow, ThematicBreak,
};
use crate::model::Location;
use crate::text::{chars_of, contains_char, is_whitespace, is_ws, same_chars};
use vstd::hash_map::StringHashMap;
use vstd::prelude::*;
use vstd::string::*;

verus! {

/// An id with the place where it is declared or referred to.
#[derive(Debug, Clone, Copy)]
pub struct Mention<'a> {
    pub id: &'a str,
    pub location: Location,
}

impl<'a> DeepView for Mention<'a> {
    type V = (Seq<char>, Location);

    open spec fn deep_view(&self) -> (Seq<char>, Location) {
        (self.id@, self.location)
    }
}

/// What was found wrong with a reference, and where.
#[derive(Debug)]
pub struct RefWarning {
    pub kind: &'static str,
    pub message: String,
    pub line: Option<usize>,
    pub column: Option<usize>,
}

/// What a warning says.
#[verifier::ext_equal]
pub struct WarningV {
    pub kind: Seq<char>,
    pub message: Seq<char>,
    pub line: Option<usize>,
    pub column: Option<usize>,
}

impl DeepView for RefWarning {
    type V = WarningV;

    open spec fn deep_view(&self) -> WarningV {
        WarningV {
            kind: self.kind@,
            message: self.message@,
            line: self.line,
            column: self.column,
        }
    }
}

// ---------------------------------------------------------------------------
// The anchors that a document declares, in the order of the document.
// ---------------------------------------------------------------------------

/// The declaration that an anchor makes.
pub open spec fn anchor_decl(a: Anchor<'_>) -> (Seq<char>, Location) {
    (a.id@, a.location)
}

/// The declarations of the first `n` anchors.
pub open spec fn anchors_decls(anchors: Seq<Anchor<'_>>, n: nat) -> Seq<(Seq<char>, Location)>
    decreases n,
{
    if n == 0 || n > anchors.len() {
        Seq::empty()
    } else {
        anchors_decls(anchors, (n - 1) as nat).push(anchor_decl(anchors[n - 1]))
    }
}

/// Whether an anchor before the `i`th has the same id.
pub open spec fn repeats(anchors: Seq<Anchor<'_>>, i: int) -> bool {
    exists|j: int| 0 <= j < i && #[trigger] anchors[j].id@ == anchors[i].id@
}

/// Whether `a` is an anchor with the id `id`.
pub open spec fn has_id(a: Option<Anchor<'_>>, id: Seq<char>) -> bool {
    a is Some && a->Some_0.id@ == id
}

/// The declarations of the first `n` anchors of a block, each id once and without
/// those that the block declares otherwise.
pub open spec fn own_decls(
    anchors: Seq<Anchor<'_>>,
    n: nat,
    id: Option<Anchor<'_>>,
    section_id: Option<Seq<char>>,
) -> Seq<(Seq<char>, Location)>
    decreases n,
{
    if n == 0 || n > anchors.len() {
        Seq::empty()
    } else {
        let before = own_decls(anchors, (n - 1) as nat, id, section_id);
        let a = anchors[n - 1];
        if has_id(id, a.id@) || section_id == Some(a.id@) || repeats(anchors, n - 1) {
            before
        } else {
            before.push(anchor_decl(a))
        }
    }
}

/// The declarations of the metadata of a block.
pub open spec fn metadata_decls(m: BlockMetadata<'_>) -> Seq<(Seq<char>, Location)> {
    let anchors = own_decls(m.anchors@, m.anchors@.len(), m.id, None);
    match m.id {
        Some(a) => anchors.push(anchor_decl(a)),
        None => anchors,
    }
}

/// The declaration of an id that may be missing.
pub open spec fn id_decl(id: Option<&str>, location: Location) -> Seq<(Seq<char>, Location)> {
    match id {
        Some(s) => seq![(s@, location)],
        None => Seq::empty(),
    }
}

/// The declarations of a formatted span.
pub open spec fn span_decls(s: Span<'_>) -> Seq<(Seq<char>, Location)>
    decreases s, 0nat,
{
    id_decl(s.id, s.location) + inlines_decls(s.content@, s.content@.len())
}

/// The declarations of an inline macro. A footnote without content refers to
/// another and declares nothing.
pub open spec fn macro_decls(m: InlineMacro<'_>) -> Seq<(Seq<char>, Location)>
    decreases m, 0nat,
{
    match m {
        InlineMacro::Footnote(f) => (if f.content@.len() > 0 {
            id_decl(f.id, f.location)
        } else {
            Seq::empty()
        }) + inlines_decls(f.content@, f.content@.len()),
        InlineMacro::Link(l) => inlines_decls(l.text@, l.text@.len()),
        InlineMacro::Url(l) => inlines_decls(l.text@, l.text@.len()),
        InlineMacro::Mailto(l) => inlines_decls(l.text@, l.text@.len()),
        InlineMacro::Image(i) => metadata_decls(i.metadata) + inlines_decls(
            i.title@,
            i.title@.len(),
        ),
        InlineMacro::CrossReference(x) => inlines_decls(x.text@, x.text@.len()),
        InlineMacro::Other(_) => Seq::empty(),
    }
}

/// The declarations of a piece of inline content.
pub open spec fn inline_decls(node: InlineNode<'_>) -> Seq<(Seq<char>, Location)>
    decreases node, 0nat,
{
    match node {
        InlineNode::PlainText(_) => Seq::empty(),
        InlineNode::RawText(_) => Seq::empty(),
        InlineNode::VerbatimText(_) => Seq::empty(),
        InlineNode::BoldText(s) => span_decls(s),
        InlineNode::ItalicText(s) => span_decls(s),
        InlineNode::MonospaceText(s) => span_decls(s),
        InlineNode::HighlightText(s) => span_decls(s),
        InlineNode::SubscriptText(s) => span_decls(s),
        InlineNode::SuperscriptText(s) => span_decls(s),
        InlineNode::CurvedQuotationText(s) => span_decls(s),
        InlineNode::CurvedApostropheText(s) => span_decls(s),
        InlineNode::InlineAnchor(a) => seq![anchor_decl(a)],
        InlineNode::Macro(m) => macro_decls(m),
        InlineNode::Other(_) => Seq::empty(),
    }
}

/// The declarations of the first `n` pieces of inline content.
pub open spec fn inlines_decls(nodes: Seq<InlineNode<'_>>, n: nat) -> Seq<(Seq<char>, Location)>
    decreases nodes, n,
{
    if n == 0 || n > nodes.len() {
        Seq::empty()
    } else {
        inlines_decls(nodes, (n - 1) as nat) + inline_decls(nodes[n - 1])
    }
}

/// The place of the heading line of a section: to the end of its title.
pub open spec fn heading_location(section: Section<'_>) -> Location {
    if section.title@.len() == 0 {
        section.location
    } else {
        let last = inline_location(section.title@.last());
        Location { absolute_end: last.absolute_end, end: last.end, ..section.location }
    }
}

/// The declarations of the anchors and the id of a section.
pub open spec fn section_decls(s: Section<'_>) -> Seq<(Seq<char>, Location)> {
    own_decls(s.metadata.anchors@, s.metadata.anchors@.len(), s.metadata.id, Some(s.id@)).push(
        (s.id@, heading_location(s)),
    )
}

/// The declarations of a block that has metadata and a title only.
pub open spec fn media_decls(m: Media<'_>) -> Seq<(Seq<char>, Location)> {
    metadata_decls(m.metadata) + inlines_decls(m.title@, m.title@.len())
}

/// The declarations of a list item.
pub open spec fn item_decls(item: ListItem<'_>) -> Seq<(Seq<char>, Location)>
    decreases item, 0nat,
{
    inlines_decls(item.principal@, item.principal@.len()) + blocks_decls(
        item.blocks@,
        item.blocks@.len(),
    )
}

/// The declarations of the first `n` items of a list.
pub open spec fn items_decls(items: Seq<ListItem<'_>>, n: nat) -> Seq<(Seq<char>, Location)>
    decreases items, n,
{
    if n == 0 || n > items.len() {
        Seq::empty()
    } else {
        items_decls(items, (n - 1) as nat) + item_decls(items[n - 1])
    }
}

/// The declarations of a list.
pub open spec fn list_decls(l: List<'_>) -> Seq<(Seq<char>, Location)>
    decreases l, 0nat,
{
    metadata_decls(l.metadata) + inlines_decls(l.title@, l.title@.len()) + items_decls(
        l.items@,
        l.items@.len(),
    )
}

/// The declarations of a term and its description.
pub open spec fn term_decls(item: DescriptionListItem<'_>) -> Seq<(Seq<char>, Location)>
    decreases item, 0nat,
{
    anchors_decls(item.anchors@, item.anchors@.len()) + inlines_decls(
        item.term@,
        item.term@.len(),
    ) + inlines_decls(item.principal_text@, item.principal_text@.len()) + blocks_decls(
        item.description@,
        item.description@.len(),
    )
}

/// The declarations of the first `n` terms.
pub open spec fn terms_decls(items: Seq<DescriptionListItem<'_>>, n: nat) -> Seq<
    (Seq<char>, Location),
>
    decreases items, n,
{
    if n == 0 || n > items.len() {
        Seq::empty()
    } else {
        terms_decls(items, (n - 1) as nat) + term_decls(items[n - 1])
    }
}

/// The declarations of the first `n` explanations of callouts.
pub open spec fn callouts_decls(items: Seq<CalloutListItem<'_>>, n: nat) -> Seq<
    (Seq<char>, Location),
>
    decreases items, n,
{
    if n == 0 || n > items.len() {
        Seq::empty()
    } else {
        callouts_decls(items, (n - 1) as nat) + inlines_decls(
            items[n - 1].principal@,
            items[n - 1].principal@.len(),
        )
    }
}

/// The declarations of the first `n` cells of a row.
pub open spec fn columns_decls(columns: Seq<TableColumn<'_>>, n: nat) -> Seq<(Seq<char>, Location)>
    decreases columns, n,
{
    if n == 0 || n > columns.len() {
        Seq::empty()
    } else {
        columns_decls(columns, (n - 1) as nat) + blocks_decls(
            columns[n - 1].content@,
            columns[n - 1].content@.len(),
        )
    }
}

/// The declarations of the first `n` rows of a table.
pub open spec fn rows_decls(rows: Seq<TableRow<'_>>, n: nat) -> Seq<(Seq<char>, Location)>
    decreases rows, n,
{
    if n == 0 || n > rows.len() {
        Seq::empty()
    } else {
        rows_decls(rows, (n - 1) as nat) + columns_decls(
            rows[n - 1].columns@,
            rows[n - 1].columns@.len(),
        )
    }
}

/// The declarations of a row that may be missing.
pub open spec fn edge_row_decls(row: Option<TableRow<'_>>) -> Seq<(Seq<char>, Location)>
    decreases row, 0nat,
{
    match row {
        Some(r) => columns_decls(r.columns@, r.columns@.len()),
        None => Seq::empty(),
    }
}

/// The declarations of a table: header, rows and footer.
pub open spec fn table_decls(t: Table<'_>) -> Seq<(Seq<char>, Location)>
    decreases t, 0nat,
{
    edge_row_decls(t.header) + rows_decls(t.rows@, t.rows@.len()) + edge_row_decls(t.footer)
}

/// The declarations of what stands between the delimiters of a block.
pub open spec fn delimited_decls(inner: DelimitedBlockType<'_>) -> Seq<(Seq<char>, Location)>
    decreases inner, 0nat,
{
    match inner {
        DelimitedBlockType::DelimitedExample(b) => blocks_decls(b@, b@.len()),
        DelimitedBlockType::DelimitedOpen(b) => blocks_decls(b@, b@.len()),
        DelimitedBlockType::DelimitedSidebar(b) => blocks_decls(b@, b@.len()),
        DelimitedBlockType::DelimitedQuote(b) => blocks_decls(b@, b@.len()),
        DelimitedBlockType::DelimitedListing(i) => inlines_decls(i@, i@.len()),
        DelimitedBlockType::DelimitedLiteral(i) => inlines_decls(i@, i@.len()),
        DelimitedBlockType::DelimitedPass(i) => inlines_decls(i@, i@.len()),
        DelimitedBlockType::DelimitedVerse(i) => inlines_decls(i@, i@.len()),
        DelimitedBlockType::DelimitedComment(i) => inlines_decls(i@, i@.len()),
        DelimitedBlockType::DelimitedTable(t) => table_decls(t),
        DelimitedBlockType::Other => Seq::empty(),
    }
}

/// The declarations of a block.
pub open spec fn block_decls(block: Block<'_>) -> Seq<(Seq<char>, Location)>
    decreases block, 0nat,
{
    match block {
        Block::Section(s) => section_decls(s) + inlines_decls(s.title@, s.title@.len())
            + blocks_decls(s.content@, s.content@.len()),
        Block::Paragraph(p) => metadata_decls(p.metadata) + inlines_decls(p.title@, p.title@.len())
            + inlines_decls(p.content@, p.content@.len()),
        Block::DelimitedBlock(d) => metadata_decls(d.metadata) + inlines_decls(
            d.title@,
            d.title@.len(),
        ) + delimited_decls(d.inner),
        Block::UnorderedList(l) => list_decls(l),
        Block::OrderedList(l) => list_decls(l),
        Block::DescriptionList(l) => metadata_decls(l.metadata) + inlines_decls(
            l.title@,
            l.title@.len(),
        ) + terms_decls(l.items@, l.items@.len()),
        Block::Admonition(a) => metadata_decls(a.metadata) + inlines_decls(a.title@, a.title@.len())
            + blocks_decls(a.blocks@, a.blocks@.len()),
        Block::Image(m) => media_decls(m),
        Block::Audio(m) => media_decls(m),
        Block::Video(m) => media_decls(m),
        Block::PageBreak(m) => media_decls(m),
        Block::DiscreteHeader(m) => media_decls(m),
        Block::CalloutList(l) => metadata_decls(l.metadata) + inlines_decls(
            l.title@,
            l.title@.len(),
        ) + callouts_decls(l.items@, l.items@.len()),
        Block::ThematicBreak(t) => anchors_decls(t.anchors@, t.anchors@.len()) + inlines_decls(
            t.title@,
            t.title@.len(),
        ),
        Block::TableOfContents(m) => metadata_decls(m.metadata),
        Block::Other(_) => Seq::empty(),
    }
}

/// The declarations of the first `n` blocks.
pub open spec fn blocks_decls(blocks: Seq<Block<'_>>, n: nat) -> Seq<(Seq<char>, Location)>
    decreases blocks, n,
{
    if n == 0 || n > blocks.len() {
        Seq::empty()
    } else {
        blocks_decls(blocks, (n - 1) as nat) + block_decls(blocks[n - 1])
    }
}

// ---------------------------------------------------------------------------
// The references that a document makes, in the order of the document.
// ---------------------------------------------------------------------------

/// The references of a formatted span.
pub open spec fn span_uses(s: Span<'_>) -> Seq<(Seq<char>, Location)>
    decreases s, 0nat,
{
    inlines_uses(s.content@, s.content@.len())
}

/// The references of an inline macro.
pub open spec fn macro_uses(m: InlineMacro<'_>) -> Seq<(Seq<char>, Location)>
    decreases m, 0nat,
{
    match m {
        InlineMacro::Footnote(f) => inlines_uses(f.content@, f.content@.len()),
        InlineMacro::Link(l) => inlines_uses(l.text@, l.text@.len()),
        InlineMacro::Url(l) => inlines_uses(l.text@, l.text@.len()),
        InlineMacro::Mailto(l) => inlines_uses(l.text@, l.text@.len()),
        InlineMacro::Image(i) => inlines_uses(i.title@, i.title@.len()),
        InlineMacro::CrossReference(x) => seq![(x.target@, x.location)] + inlines_uses(
            x.text@,
            x.text@.len(),
        ),
        InlineMacro::Other(_) => Seq::empty(),
    }
}

/// The references of a piece of inline content.
pub open spec fn inline_uses(node: InlineNode<'_>) -> Seq<(Seq<char>, Location)>
    decreases node, 0nat,
{
    match node {
        InlineNode::PlainText(_) => Seq::empty(),
        InlineNode::RawText(_) => Seq::empty(),
        InlineNode::VerbatimText(_) => Seq::empty(),
        InlineNode::BoldText(s) => span_uses(s),
        InlineNode::ItalicText(s) => span_uses(s),
        InlineNode::MonospaceText(s) => span_uses(s),
        InlineNode::HighlightText(s) => span_uses(s),
        InlineNode::SubscriptText(s) => span_uses(s),
        InlineNode::SuperscriptText(s) => span_uses(s),
        InlineNode::CurvedQuotationText(s) => span_uses(s),
        InlineNode::CurvedApostropheText(s) => span_uses(s),
        InlineNode::InlineAnchor(_) => Seq::empty(),
        InlineNode::Macro(m) => macro_uses(m),
        InlineNode::Other(_) => Seq::empty(),
    }
}

/// The references of the first `n` pieces of inline content.
pub open spec fn inlines_uses(nodes: Seq<InlineNode<'_>>, n: nat) -> Seq<(Seq<char>, Location)>
    decreases nodes, n,
{
    if n == 0 || n > nodes.len() {
        Seq::empty()
    } else {
        inlines_uses(nodes, (n - 1) as nat) + inline_uses(nodes[n - 1])
    }
}

/// The references of a list item.
pub open spec fn item_uses(item: ListItem<'_>) -> Seq<(Seq<char>, Location)>
    decreases item, 0nat,
{
    inlines_uses(item.principal@, item.principal@.len()) + blocks_uses(
        item.blocks@,
        item.blocks@.len(),
    )
}

/// The references of the first `n` items of a list.
pub open spec fn items_uses(items: Seq<ListItem<'_>>, n: nat) -> Seq<(Seq<char>, Location)>
    decreases items, n,
{
    if n == 0 || n > items.len() {
        Seq::empty()
    } else {
        items_uses(items, (n - 1) as nat) + item_uses(items[n - 1])
    }
}

/// The references of a list.
pub open spec fn list_uses(l: List<'_>) -> Seq<(Seq<char>, Location)>
    decreases l, 0nat,
{
    inlines_uses(l.title@, l.title@.len()) + items_uses(l.items@, l.items@.len())
}

/// The references of a term and its description.
pub open spec fn term_uses(item: DescriptionListItem<'_>) -> Seq<(Seq<char>, Location)>
    decreases item, 0nat,
{
    inlines_uses(item.term@, item.term@.len()) + inlines_uses(
        item.principal_text@,
        item.principal_text@.len(),
    ) + blocks_uses(item.description@, item.description@.len())
}

/// The references of the first `n` terms.
pub open spec fn terms_uses(items: Seq<DescriptionListItem<'_>>, n: nat) -> Seq<
    (Seq<char>, Location),
>
    decreases items, n,
{
    if n == 0 || n > items.len() {
        Seq::empty()
    } else {
        terms_uses(items, (n - 1) as nat) + term_uses(items[n - 1])
    }
}

/// The references of the first `n` explanations of callouts.
pub open spec fn callouts_uses(items: Seq<CalloutListItem<'_>>, n: nat) -> Seq<
    (Seq<char>, Location),
>
    decreases items, n,
{
    if n == 0 || n > items.len() {
        Seq::empty()
    } else {
        callouts_uses(items, (n - 1) as nat) + inlines_uses(
            items[n - 1].principal@,
            items[n - 1].principal@.len(),
        )
    }
}

/// The references of the first `n` cells of a row.
pub open spec fn columns_uses(columns: Seq<TableColumn<'_>>, n: nat) -> Seq<(Seq<char>, Location)>
    decreases columns, n,
{
    if n == 0 || n > columns.len() {
        Seq::empty()
    } else {
        columns_uses(columns, (n - 1) as nat) + blocks_uses(
            columns[n - 1].content@,
            columns[n - 1].content@.len(),
        )
    }
}

/// The references of the first `n` rows of a table.
pub open spec fn rows_uses(rows: Seq<TableRow<'_>>, n: nat) -> Seq<(Seq<char>, Location)>
    decreases rows, n,
{
    if n == 0 || n > rows.len() {
        Seq::empty()
    } else {
        rows_uses(rows, (n - 1) as nat) + columns_uses(
            rows[n - 1].columns@,
            rows[n - 1].columns@.len(),
        )
    }
}

/// The references of a row that may be missing.
pub open spec fn edge_row_uses(row: Option<TableRow<'_>>) -> Seq<(Seq<char>, Location)>
    decreases row, 0nat,
{
    match row {
        Some(r) => columns_uses(r.columns@, r.columns@.len()),
        None => Seq::empty(),
    }
}

/// The references of a table: header, rows and footer.
pub open spec fn table_uses(t: Table<'_>) -> Seq<(Seq<char>, Location)>
    decreases t, 0nat,
{
    edge_row_uses(t.header) + rows_uses(t.rows@, t.rows@.len()) + edge_row_uses(t.footer)
}

/// The references of what stands between the delimiters of a block.
pub open spec fn delimited_uses(inner: DelimitedBlockType<'_>) -> Seq<(Seq<char>, Location)>
    decreases inner, 0nat,
{
    match inner {
        DelimitedBlockType::DelimitedExample(b) => blocks_uses(b@, b@.len()),
        DelimitedBlockType::DelimitedOpen(b) => blocks_uses(b@, b@.len()),
        DelimitedBlockType::DelimitedSidebar(b) => blocks_uses(b@, b@.len()),
        DelimitedBlockType::DelimitedQuote(b) => blocks_uses(b@, b@.len()),
        DelimitedBlockType::DelimitedListing(i) => inlines_uses(i@, i@.len()),
        DelimitedBlockType::DelimitedLiteral(i) => inlines_uses(i@, i@.len()),
        DelimitedBlockType::DelimitedPass(i) => inlines_uses(i@, i@.len()),
        DelimitedBlockType::DelimitedVerse(i) => inlines_uses(i@, i@.len()),
        DelimitedBlockType::DelimitedComment(i) => inlines_uses(i@, i@.len()),
        DelimitedBlockType::DelimitedTable(t) => table_uses(t),
        DelimitedBlockType::Other => Seq::empty(),
    }
}

/// The references of a block.
pub open spec fn block_uses(block: Block<'_>) -> Seq<(Seq<char>, Location)>
    decreases block, 0nat,
{
    match block {
        Block::Section(s) => inlines_uses(s.title@, s.title@.len())
            + blocks_uses(s.content@, s.content@.len()),
        Block::Paragraph(p) => inlines_uses(p.title@, p.title@.len())
            + inlines_uses(p.content@, p.content@.len()),
        Block::DelimitedBlock(d) => inlines_uses(d.title@, d.title@.len()) + delimited_uses(
            d.inner,
        ),
        Block::UnorderedList(l) => list_uses(l),
        Block::OrderedList(l) => list_uses(l),
        Block::DescriptionList(l) => inlines_uses(l.title@, l.title@.len()) + terms_uses(
            l.items@,
            l.items@.len(),
        ),
        Block::Admonition(a) => inlines_uses(a.title@, a.title@.len())
            + blocks_uses(a.blocks@, a.blocks@.len()),
        Block::Image(m) => inlines_uses(m.title@, m.title@.len()),
        Block::Audio(m) => inlines_uses(m.title@, m.title@.len()),
        Block::Video(m) => inlines_uses(m.title@, m.title@.len()),
        Block::PageBreak(m) => inlines_uses(m.title@, m.title@.len()),
        Block::DiscreteHeader(m) => inlines_uses(m.title@, m.title@.len()),
        Block::CalloutList(l) => inlines_uses(l.title@, l.title@.len()) + callouts_uses(
            l.items@,
            l.items@.len(),
        ),
        Block::ThematicBreak(t) => inlines_uses(t.title@, t.title@.len()),
        Block::TableOfContents(_) => Seq::empty(),
        Block::Other(_) => Seq::empty(),
    }
}

/// The references of the first `n` blocks.
pub open spec fn blocks_uses(blocks: Seq<Block<'_>>, n: nat) -> Seq<(Seq<char>, Location)>
    decreases blocks, n,
{
    if n == 0 || n > blocks.len() {
        Seq::empty()
    } else {
        blocks_uses(blocks, (n - 1) as nat) + block_uses(blocks[n - 1])
    }
}

// ---------------------------------------------------------------------------
// Collecting the declarations.
// ---------------------------------------------------------------------------

fn push_mention<'a>(id: &'a str, location: Location, out: &mut Vec<Mention<'a>>)
    ensures
        final(out).deep_view() == old(out).deep_view().push((id@, location)),
{
    let ghost before = out.deep_view();
    out.push(Mention { id, location });
    assert(out.deep_view() =~= before.push((id@, location)));
}

fn push_optional<'a>(id: Option<&'a str>, location: Location, out: &mut Vec<Mention<'a>>)
    ensures
        final(out).deep_view() == old(out).deep_view() + id_decl(id, location),
{
    let ghost before = out.deep_view();
    match id {
        Some(s) => {
            push_mention(s, location, out);
        },
        None => {},
    }
    assert(out.deep_view() =~= before + id_decl(id, location));
}

fn push_anchors<'a>(anchors: &Vec<Anchor<'a>>, out: &mut Vec<Mention<'a>>)
    ensures
        final(out).deep_view() == old(out).deep_view() + anchors_decls(
            anchors@,
            anchors@.len(),
        ),
{
    let ghost before = out.deep_view();
    let mut i: usize = 0;
    assert(before + anchors_decls(anchors@, 0) =~= before);
    while i < anchors.len()
        invariant
            i <= anchors@.len(),
            out.deep_view() == before + anchors_decls(anchors@, i as nat),
        decreases anchors.len() - i,
    {
        push_mention(anchors[i].id, anchors[i].location, out);
        assert(out.deep_view() =~= before + anchors_decls(anchors@, (i + 1) as nat));
        i += 1;
    }
}

fn is_repeated<'a>(anchors: &Vec<Anchor<'a>>, i: usize) -> (r: bool)
    requires
        i < anchors@.len(),
    ensures
        r == repeats(anchors@, i as int),
{
    let mut j: usize = 0;
    while j < i
        invariant
            j <= i < anchors@.len(),
            forall|k: int| 0 <= k < j ==> #[trigger] anchors@[k].id@ != anchors@[i as int].id@,
        decreases i - j,
    {
        if same_chars(anchors[j].id, anchors[i].id) {
            return true;
        }
        j += 1;
    }
    false
}

/// Collect the anchors of a block, each id once and without those that the block
/// declares otherwise.
fn push_own_anchors<'a>(
    anchors: &Vec<Anchor<'a>>,
    id: &Option<Anchor<'a>>,
    section_id: Option<&'a str>,
    out: &mut Vec<Mention<'a>>,
)
    ensures
        final(out).deep_view() == old(out).deep_view() + own_decls(
            anchors@,
            anchors@.len(),
            *id,
            match section_id {
                Some(s) => Some(s@),
                None => None,
            },
        ),
{
    let ghost sid = match section_id {
        Some(s) => Some(s@),
        None => None,
    };
    let ghost before = out.deep_view();
    let mut i: usize = 0;
    assert(before + own_decls(anchors@, 0, *id, sid) =~= before);
    while i < anchors.len()
        invariant
            i <= anchors@.len(),
            sid == (match section_id {
                Some(s) => Some(s@),
                None => None,
            }),
            out.deep_view() == before + own_decls(anchors@, i as nat, *id, sid),
        decreases anchors.len() - i,
    {
        let anchor = &anchors[i];
        let is_id = match id {
            Some(a) => same_chars(a.id, anchor.id),
            None => false,
        };
        let is_section = match section_id {
            Some(s) => same_chars(s, anchor.id),
            None => false,
        };
        if !(is_id || is_section || is_repeated(anchors, i)) {
            push_mention(anchor.id, anchor.location, out);
        }
        assert(out.deep_view() =~= before + own_decls(anchors@, (i + 1) as nat, *id, sid));
        i += 1;
    }
}

/// Collect the declarations of the metadata of a block.
fn collect_metadata_anchors<'a>(metadata: &BlockMetadata<'a>, out: &mut Vec<Mention<'a>>)
    ensures
        final(out).deep_view() == old(out).deep_view() + metadata_decls(*metadata),
{
    let ghost before = out.deep_view();
    push_own_anchors(&metadata.anchors, &metadata.id, None, out);
    match &metadata.id {
        Some(a) => {
            push_mention(a.id, a.location, out);
        },
        None => {},
    }
    assert(out.deep_view() =~= before + metadata_decls(*metadata));
}

/// The place of the heading line of a section.
fn heading_line_location<'a>(section: &Section<'a>) -> (r: Location)
    ensures
        r == heading_location(*section),
{
    let n: usize = section.title.len();
    if n == 0 {
        return section.location;
    }
    let last = section.title[n - 1].location();
    Location {
        absolute_start: section.location.absolute_start,
        absolute_end: last.absolute_end,
        start: section.location.start,
        end: last.end,
    }
}

/// Collect the declarations of the anchors and the id of a section.
fn collect_section_anchors<'a>(section: &Section<'a>, out: &mut Vec<Mention<'a>>)
    ensures
        final(out).deep_view() == old(out).deep_view() + section_decls(*section),
{
    let ghost before = out.deep_view();
    push_own_anchors(&section.metadata.anchors, &section.metadata.id, Some(section.id), out);
    push_mention(section.id, heading_line_location(section), out);
    assert(out.deep_view() =~= before + section_decls(*section));
}

fn collect_span_anchors<'a>(span: &Span<'a>, out: &mut Vec<Mention<'a>>)
    ensures
        final(out).deep_view() == old(out).deep_view() + span_decls(*span),
    decreases *span, 0nat,
{
    let ghost before = out.deep_view();
    push_optional(span.id, span.location, out);
    collect_inline_anchors(&span.content, out);
    assert(out.deep_view() =~= before + span_decls(*span));
}

fn collect_macro_anchors<'a>(m: &InlineMacro<'a>, out: &mut Vec<Mention<'a>>)
    ensures
        final(out).deep_view() == old(out).deep_view() + macro_decls(*m),
    decreases *m, 0nat,
{
    let ghost before = out.deep_view();
    match m {
        InlineMacro::Footnote(f) => {
            if f.content.len() > 0 {
                push_optional(f.id, f.location, out);
            }
            collect_inline_anchors(&f.content, out);
        },
        InlineMacro::Link(l) => collect_inline_anchors(&l.text, out),
        InlineMacro::Url(l) => collect_inline_anchors(&l.text, out),
        InlineMacro::Mailto(l) => collect_inline_anchors(&l.text, out),
        InlineMacro::Image(i) => {
            collect_metadata_anchors(&i.metadata, out);
            collect_inline_anchors(&i.title, out);
        },
        InlineMacro::CrossReference(x) => {
            collect_inline_anchors(&x.text, out);
        },
        InlineMacro::Other(_) => {},
    }
    assert(out.deep_view() =~= before + macro_decls(*m));
}

fn collect_node_anchors<'a>(node: &InlineNode<'a>, out: &mut Vec<Mention<'a>>)
    ensures
        final(out).deep_view() == old(out).deep_view() + inline_decls(*node),
    decreases *node, 0nat,
{
    let ghost before = out.deep_view();
    match node {
        InlineNode::PlainText(_) => {},
        InlineNode::RawText(_) => {},
        InlineNode::VerbatimText(_) => {},
        InlineNode::BoldText(s) => collect_span_anchors(s, out),
        InlineNode::ItalicText(s) => collect_span_anchors(s, out),
        InlineNode::MonospaceText(s) => collect_span_anchors(s, out),
        InlineNode::HighlightText(s) => collect_span_anchors(s, out),
        InlineNode::SubscriptText(s) => collect_span_anchors(s, out),
        InlineNode::SuperscriptText(s) => collect_span_anchors(s, out),
        InlineNode::CurvedQuotationText(s) => collect_span_anchors(s, out),
        InlineNode::CurvedApostropheText(s) => collect_span_anchors(s, out),
        InlineNode::InlineAnchor(a) => push_mention(a.id, a.location, out),
        InlineNode::Macro(m) => collect_macro_anchors(m, out),
        InlineNode::Other(_) => {},
    }
    assert(out.deep_view() =~= before + inline_decls(*node));
}

/// Collect the declarations of inline content.
fn collect_inline_anchors<'a>(items: &Vec<InlineNode<'a>>, out: &mut Vec<Mention<'a>>)
    ensures
        final(out).deep_view() == old(out).deep_view() + inlines_decls(items@, items@.len()),
    decreases items@, items@.len(),
{
    let ghost before = out.deep_view();
    let mut i: usize = 0;
    assert(before + inlines_decls(items@, 0) =~= before);
    while i < items.len()
        invariant
            i <= items@.len(),
            out.deep_view() == before + inlines_decls(items@, i as nat),
        decreases items.len() - i,
    {
        let item = &items[i];
        let ghost now = out.deep_view();
        collect_node_anchors(item, out);
        assert(out.deep_view() =~= before + inlines_decls(items@, (i + 1) as nat));
        i += 1;
    }
}

/// Collect the declarations of the items of a list.
fn collect_items_anchors<'a>(items: &Vec<ListItem<'a>>, out: &mut Vec<Mention<'a>>)
    ensures
        final(out).deep_view() == old(out).deep_view() + items_decls(items@, items@.len()),
    decreases items@, items@.len(),
{
    let ghost before = out.deep_view();
    let mut i: usize = 0;
    assert(before + items_decls(items@, 0) =~= before);
    while i < items.len()
        invariant
            i <= items@.len(),
            out.deep_view() == before + items_decls(items@, i as nat),
        decreases items.len() - i,
    {
        let item = &items[i];
        let ghost now = out.deep_view();
        collect_inline_anchors(&item.principal, out);
        collect_blocks_anchors(&item.blocks, out);
        assert(out.deep_view() =~= now + item_decls(*item));
        assert(out.deep_view() =~= before + items_decls(items@, (i + 1) as nat));
        i += 1;
    }
}

/// Collect the declarations of terms and their descriptions.
fn collect_terms_anchors<'a>(items: &Vec<DescriptionListItem<'a>>, out: &mut Vec<Mention<'a>>)
    ensures
        final(out).deep_view() == old(out).deep_view() + terms_decls(items@, items@.len()),
    decreases items@, items@.len(),
{
    let ghost before = out.deep_view();
    let mut i: usize = 0;
    assert(before + terms_decls(items@, 0) =~= before);
    while i < items.len()
        invariant
            i <= items@.len(),
            out.deep_view() == before + terms_decls(items@, i as nat),
        decreases items.len() - i,
    {
        let item = &items[i];
        let ghost now = out.deep_view();
        push_anchors(&item.anchors, out);
        collect_inline_anchors(&item.term, out);
        collect_inline_anchors(&item.principal_text, out);
        collect_blocks_anchors(&item.description, out);
        assert(out.deep_view() =~= now + term_decls(*item));
        assert(out.deep_view() =~= before + terms_decls(items@, (i + 1) as nat));
        i += 1;
    }
}

/// Collect the declarations of the explanations of callouts.
fn collect_callouts_anchors<'a>(items: &Vec<CalloutListItem<'a>>, out: &mut Vec<Mention<'a>>)
    ensures
        final(out).deep_view() == old(out).deep_view() + callouts_decls(items@, items@.len()),
    decreases items@, items@.len(),
{
    let ghost before = out.deep_view();
    let mut i: usize = 0;
    assert(before + callouts_decls(items@, 0) =~= before);
    while i < items.len()
        invariant
            i <= items@.len(),
            out.deep_view() == before + callouts_decls(items@, i as nat),
        decreases items.len() - i,
    {
        let item = &items[i];
        let ghost now = out.deep_view();
        collect_inline_anchors(&item.principal, out);
        assert(out.deep_view() =~= before + callouts_decls(items@, (i + 1) as nat));
        i += 1;
    }
}

/// Collect the declarations of the cells of a row.
fn collect_columns_anchors<'a>(items: &Vec<TableColumn<'a>>, out: &mut Vec<Mention<'a>>)
    ensures
        final(out).deep_view() == old(out).deep_view() + columns_decls(items@, items@.len()),
    decreases items@, items@.len(),
{
    let ghost before = out.deep_view();
    let mut i: usize = 0;
    assert(before + columns_decls(items@, 0) =~= before);
    while i < items.len()
        invariant
            i <= items@.len(),
            out.deep_view() == before + columns_decls(items@, i as nat),
        decreases items.len() - i,
    {
        let item = &items[i];
        let ghost now = out.deep_view();
        collect_blocks_anchors(&item.content, out);
        assert(out.deep_view() =~= before + columns_decls(items@, (i + 1) as nat));
        i += 1;
    }
}

/// Collect the declarations of the rows of a table.
fn collect_rows_anchors<'a>(items: &Vec<TableRow<'a>>, out: &mut Vec<Mention<'a>>)
    ensures
        final(out).deep_view() == old(out).deep_view() + rows_decls(items@, items@.len()),
    decreases items@, items@.len(),
{
    let ghost before = out.deep_view();
    let mut i: usize = 0;
    assert(before + rows_decls(items@, 0) =~= before);
    while i < items.len()
        invariant
            i <= items@.len(),
            out.deep_view() == before + rows_decls(items@, i as nat),
        decreases items.len() - i,
    {
        let item = &items[i];
        let ghost now = out.deep_view();
        collect_columns_anchors(&item.columns, out);
        assert(out.deep_view() =~= before + rows_decls(items@, (i + 1) as nat));
        i += 1;
    }
}

fn collect_edge_row_anchors<'a>(row: &Option<TableRow<'a>>, out: &mut Vec<Mention<'a>>)
    ensures
        final(out).deep_view() == old(out).deep_view() + edge_row_decls(*row),
    decreases *row, 0nat,
{
    let ghost before = out.deep_view();
    match row {
        Some(r) => collect_columns_anchors(&r.columns, out),
        None => {},
    }
    assert(out.deep_view() =~= before + edge_row_decls(*row));
}

fn collect_table_anchors<'a>(table: &Table<'a>, out: &mut Vec<Mention<'a>>)
    ensures
        final(out).deep_view() == old(out).deep_view() + table_decls(*table),
    decreases *table, 0nat,
{
    let ghost before = out.deep_view();
    collect_edge_row_anchors(&table.header, out);
    collect_rows_anchors(&table.rows, out);
    collect_edge_row_anchors(&table.footer, out);
    assert(out.deep_view() =~= before + table_decls(*table));
}

/// Collect the declarations of what stands between the delimiters of a block.
fn collect_delimited_block_anchors<'a>(
    inner: &DelimitedBlockType<'a>,
    out: &mut Vec<Mention<'a>>,
)
    ensures
        final(out).deep_view() == old(out).deep_view() + delimited_decls(*inner),
    decreases *inner, 0nat,
{
    let ghost before = out.deep_view();
    match inner {
        DelimitedBlockType::DelimitedExample(b) => collect_blocks_anchors(b, out),
        DelimitedBlockType::DelimitedOpen(b) => collect_blocks_anchors(b, out),
        DelimitedBlockType::DelimitedSidebar(b) => collect_blocks_anchors(b, out),
        DelimitedBlockType::DelimitedQuote(b) => collect_blocks_anchors(b, out),
        DelimitedBlockType::DelimitedListing(i) => collect_inline_anchors(i, out),
        DelimitedBlockType::DelimitedLiteral(i) => collect_inline_anchors(i, out),
        DelimitedBlockType::DelimitedPass(i) => collect_inline_anchors(i, out),
        DelimitedBlockType::DelimitedVerse(i) => collect_inline_anchors(i, out),
        DelimitedBlockType::DelimitedComment(i) => collect_inline_anchors(i, out),
        DelimitedBlockType::DelimitedTable(t) => collect_table_anchors(t, out),
        DelimitedBlockType::Other => {},
    }
    assert(out.deep_view() =~= before + delimited_decls(*inner));
}

fn collect_list_anchors<'a>(list: &List<'a>, out: &mut Vec<Mention<'a>>)
    ensures
        final(out).deep_view() == old(out).deep_view() + list_decls(*list),
    decreases *list, 0nat,
{
    let ghost before = out.deep_view();
    collect_metadata_anchors(&list.metadata, out);
    collect_inline_anchors(&list.title, out);
    collect_items_anchors(&list.items, out);
    assert(out.deep_view() =~= before + list_decls(*list));
}

fn collect_media_anchors<'a>(media: &Media<'a>, out: &mut Vec<Mention<'a>>)
    ensures
        final(out).deep_view() == old(out).deep_view() + media_decls(*media),
    decreases *media, 0nat,
{
    let ghost before = out.deep_view();
    collect_metadata_anchors(&media.metadata, out);
    collect_inline_anchors(&media.title, out);
    assert(out.deep_view() =~= before + media_decls(*media));
}

/// Collect the declarations of a block.
pub fn collect_block_anchors<'a>(block: &Block<'a>, out: &mut Vec<Mention<'a>>)
    ensures
        final(out).deep_view() == old(out).deep_view() + block_decls(*block),
    decreases *block, 0nat,
{
    let ghost before = out.deep_view();
    match block {
        Block::Section(s) => {
            collect_section_anchors(s, out);
            collect_inline_anchors(&s.title, out);
            collect_blocks_anchors(&s.content, out);
        },
        Block::Paragraph(p) => {
            collect_metadata_anchors(&p.metadata, out);
            collect_inline_anchors(&p.title, out);
            collect_inline_anchors(&p.content, out);
        },
        Block::DelimitedBlock(d) => {
            collect_metadata_anchors(&d.metadata, out);
            collect_inline_anchors(&d.title, out);
            collect_delimited_block_anchors(&d.inner, out);
        },
        Block::UnorderedList(l) => collect_list_anchors(l, out),
        Block::OrderedList(l) => collect_list_anchors(l, out),
        Block::DescriptionList(l) => {
            collect_metadata_anchors(&l.metadata, out);
            collect_inline_anchors(&l.title, out);
            collect_terms_anchors(&l.items, out);
        },
        Block::Admonition(a) => {
            collect_metadata_anchors(&a.metadata, out);
            collect_inline_anchors(&a.title, out);
            collect_blocks_anchors(&a.blocks, out);
        },
        Block::Image(m) => collect_media_anchors(m, out),
        Block::Audio(m) => collect_media_anchors(m, out),
        Block::Video(m) => collect_media_anchors(m, out),
        Block::PageBreak(m) => collect_media_anchors(m, out),
        Block::DiscreteHeader(m) => collect_media_anchors(m, out),
        Block::CalloutList(l) => {
            collect_metadata_anchors(&l.metadata, out);
            collect_inline_anchors(&l.title, out);
            collect_callouts_anchors(&l.items, out);
        },
        Block::ThematicBreak(t) => {
            push_anchors(&t.anchors, out);
            collect_inline_anchors(&t.title, out);
        },
        Block::TableOfContents(m) => collect_metadata_anchors(&m.metadata, out),
        Block::Other(_) => {},
    }
    assert(out.deep_view() =~= before + block_decls(*block));
}

/// Collect the declarations of blocks.
fn collect_blocks_anchors<'a>(items: &Vec<Block<'a>>, out: &mut Vec<Mention<'a>>)
    ensures
        final(out).deep_view() == old(out).deep_view() + blocks_decls(items@, items@.len()),
    decreases items@, items@.len(),
{
    let ghost before = out.deep_view();
    let mut i: usize = 0;
    assert(before + blocks_decls(items@, 0) =~= before);
    while i < items.len()
        invariant
            i <= items@.len(),
            out.deep_view() == before + blocks_decls(items@, i as nat),
        decreases items.len() - i,
    {
        let item = &items[i];
        let ghost now = out.deep_view();
        collect_block_anchors(item, out);
        assert(out.deep_view() =~= before + blocks_decls(items@, (i + 1) as nat));
        i += 1;
    }
}

// ---------------------------------------------------------------------------
// Collecting the references.
// ---------------------------------------------------------------------------

fn collect_span_xrefs<'a>(span: &Span<'a>, out: &mut Vec<Mention<'a>>)
    ensures
        final(out).deep_view() == old(out).deep_view() + span_uses(*span),
    decreases *span, 0nat,
{
    let ghost before = out.deep_view();
    collect_inline_xrefs(&span.content, out);
    assert(out.deep_view() =~= before + span_uses(*span));
}

fn collect_macro_xrefs<'a>(m: &InlineMacro<'a>, out: &mut Vec<Mention<'a>>)
    ensures
        final(out).deep_view() == old(out).deep_view() + macro_uses(*m),
    decreases *m, 0nat,
{
    let ghost before = out.deep_view();
    match m {
        InlineMacro::Footnote(f) => {
            collect_inline_xrefs(&f.content, out);
        },
        InlineMacro::Link(l) => collect_inline_xrefs(&l.text, out),
        InlineMacro::Url(l) => collect_inline_xrefs(&l.text, out),
        InlineMacro::Mailto(l) => collect_inline_xrefs(&l.text, out),
        InlineMacro::Image(i) => {
            collect_inline_xrefs(&i.title, out);
        },
        InlineMacro::CrossReference(x) => {
            push_mention(x.target, x.location, out);
            collect_inline_xrefs(&x.text, out);
        },
        InlineMacro::Other(_) => {},
    }
    assert(out.deep_view() =~= before + macro_uses(*m));
}

fn collect_node_xrefs<'a>(node: &InlineNode<'a>, out: &mut Vec<Mention<'a>>)
    ensures
        final(out).deep_view() == old(out).deep_view() + inline_uses(*node),
    decreases *node, 0nat,
{
    let ghost before = out.deep_view();
    match node {
        InlineNode::PlainText(_) => {},
        InlineNode::RawText(_) => {},
        InlineNode::VerbatimText(_) => {},
        InlineNode::BoldText(s) => collect_span_xrefs(s, out),
        InlineNode::ItalicText(s) => collect_span_xrefs(s, out),
        InlineNode::MonospaceText(s) => collect_span_xrefs(s, out),
        InlineNode::HighlightText(s) => collect_span_xrefs(s, out),
        InlineNode::SubscriptText(s) => collect_span_xrefs(s, out),
        InlineNode::SuperscriptText(s) => collect_span_xrefs(s, out),
        InlineNode::CurvedQuotationText(s) => collect_span_xrefs(s, out),
        InlineNode::CurvedApostropheText(s) => collect_span_xrefs(s, out),
        InlineNode::InlineAnchor(_) => {},
        InlineNode::Macro(m) => collect_macro_xrefs(m, out),
        InlineNode::Other(_) => {},
    }
    assert(out.deep_view() =~= before + inline_uses(*node));
}

/// Collect the references of inline content.
fn collect_inline_xrefs<'a>(items: &Vec<InlineNode<'a>>, out: &mut Vec<Mention<'a>>)
    ensures
        final(out).deep_view() == old(out).deep_view() + inlines_uses(items@, items@.len()),
    decreases items@, items@.len(),
{
    let ghost before = out.deep_view();
    let mut i: usize = 0;
    assert(before + inlines_uses(items@, 0) =~= before);
    while i < items.len()
        invariant
            i <= items@.len(),
            out.deep_view() == before + inlines_uses(items@, i as nat),
        decreases items.len() - i,
    {
        let item = &items[i];
        let ghost now = out.deep_view();
        collect_node_xrefs(item, out);
        assert(out.deep_view() =~= before + inlines_uses(items@, (i + 1) as nat));
        i += 1;
    }
}

/// Collect the references of the items of a list.
fn collect_items_xrefs<'a>(items: &Vec<ListItem<'a>>, out: &mut Vec<Mention<'a>>)
    ensures
        final(out).deep_view() == old(out).deep_view() + items_uses(items@, items@.len()),
    decreases items@, items@.len(),
{
    let ghost before = out.deep_view();
    let mut i: usize = 0;
    assert(before + items_uses(items@, 0) =~= before);
    while i < items.len()
        invariant
            i <= items@.len(),
            out.deep_view() == before + items_uses(items@, i as nat),
        decreases items.len() - i,
    {
        let item = &items[i];
        let ghost now = out.deep_view();
        collect_inline_xrefs(&item.principal, out);
        collect_blocks_xrefs(&item.blocks, out);
        assert(out.deep_view() =~= now + item_uses(*item));
        assert(out.deep_view() =~= before + items_uses(items@, (i + 1) as nat));
        i += 1;
    }
}

/// Collect the references of terms and their descriptions.
fn collect_terms_xrefs<'a>(items: &Vec<DescriptionListItem<'a>>, out: &mut Vec<Mention<'a>>)
    ensures
        final(out).deep_view() == old(out).deep_view() + terms_uses(items@, items@.len()),
    decreases items@, items@.len(),
{
    let ghost before = out.deep_view();
    let mut i: usize = 0;
    assert(before + terms_uses(items@, 0) =~= before);
    while i < items.len()
        invariant
            i <= items@.len(),
            out.deep_view() == before + terms_uses(items@, i as nat),
        decreases items.len() - i,
    {
        let item = &items[i];
        let ghost now = out.deep_view();
        collect_inline_xrefs(&item.term, out);
        collect_inline_xrefs(&item.principal_text, out);
        collect_blocks_xrefs(&item.description, out);
        assert(out.deep_view() =~= now + term_uses(*item));
        assert(out.deep_view() =~= before + terms_uses(items@, (i + 1) as nat));
        i += 1;
    }
}

/// Collect the references of the explanations of callouts.
fn collect_callouts_xrefs<'a>(items: &Vec<CalloutListItem<'a>>, out: &mut Vec<Mention<'a>>)
    ensures
        final(out).deep_view() == old(out).deep_view() + callouts_uses(items@, items@.len()),
    decreases items@, items@.len(),
{
    let ghost before = out.deep_view();
    let mut i: usize = 0;
    assert(before + callouts_uses(items@, 0) =~= before);
    while i < items.len()
        invariant
            i <= items@.len(),
            out.deep_view() == before + callouts_uses(items@, i as nat),
        decreases items.len() - i,
    {
        let item = &items[i];
        let ghost now = out.deep_view();
        collect_inline_xrefs(&item.principal, out);
        assert(out.deep_view() =~= before + callouts_uses(items@, (i + 1) as nat));
        i += 1;
    }
}

/// Collect the references of the cells of a row.
fn collect_columns_xrefs<'a>(items: &Vec<TableColumn<'a>>, out: &mut Vec<Mention<'a>>)
    ensures
        final(out).deep_view() == old(out).deep_view() + columns_uses(items@, items@.len()),
    decreases items@, items@.len(),
{
    let ghost before = out.deep_view();
    let mut i: usize = 0;
    assert(before + columns_uses(items@, 0) =~= before);
    while i < items.len()
        invariant
            i <= items@.len(),
            out.deep_view() == before + columns_uses(items@, i as nat),
        decreases items.len() - i,
    {
        let item = &items[i];
        let ghost now = out.deep_view();
        collect_blocks_xrefs(&item.content, out);
        assert(out.deep_view() =~= before + columns_uses(items@, (i + 1) as nat));
        i += 1;
    }
}

/// Collect the references of the rows of a table.
fn collect_rows_xrefs<'a>(items: &Vec<TableRow<'a>>, out: &mut Vec<Mention<'a>>)
    ensures
        final(out).deep_view() == old(out).deep_view() + rows_uses(items@, items@.len()),
    decreases items@, items@.len(),
{
    let ghost before = out.deep_view();
    let mut i: usize = 0;
    assert(before + rows_uses(items@, 0) =~= before);
    while i < items.len()
        invariant
            i <= items@.len(),
            out.deep_view() == before + rows_uses(items@, i as nat),
        decreases items.len() - i,
    {
        let item = &items[i];
        let ghost now = out.deep_view();
        collect_columns_xrefs(&item.columns, out);
        assert(out.deep_view() =~= before + rows_uses(items@, (i + 1) as nat));
        i += 1;
    }
}

fn collect_edge_row_xrefs<'a>(row: &Option<TableRow<'a>>, out: &mut Vec<Mention<'a>>)
    ensures
        final(out).deep_view() == old(out).deep_view() + edge_row_uses(*row),
    decreases *row, 0nat,
{
    let ghost before = out.deep_view();
    match row {
        Some(r) => collect_columns_xrefs(&r.columns, out),
        None => {},
    }
    assert(out.deep_view() =~= before + edge_row_uses(*row));
}

fn collect_table_xrefs<'a>(table: &Table<'a>, out: &mut Vec<Mention<'a>>)
    ensures
        final(out).deep_view() == old(out).deep_view() + table_uses(*table),
    decreases *table, 0nat,
{
    let ghost before = out.deep_view();
    collect_edge_row_xrefs(&table.header, out);
    collect_rows_xrefs(&table.rows, out);
    collect_edge_row_xrefs(&table.footer, out);
    assert(out.deep_view() =~= before + table_uses(*table));
}

/// Collect the references of what stands between the delimiters of a block.
fn collect_delimited_block_xrefs<'a>(
    inner: &DelimitedBlockType<'a>,
    out: &mut Vec<Mention<'a>>,
)
    ensures
        final(out).deep_view() == old(out).deep_view() + delimited_uses(*inner),
    decreases *inner, 0nat,
{
    let ghost before = out.deep_view();
    match inner {
        DelimitedBlockType::DelimitedExample(b) => collect_blocks_xrefs(b, out),
        DelimitedBlockType::DelimitedOpen(b) => collect_blocks_xrefs(b, out),
        DelimitedBlockType::DelimitedSidebar(b) => collect_blocks_xrefs(b, out),
        DelimitedBlockType::DelimitedQuote(b) => collect_blocks_xrefs(b, out),
        DelimitedBlockType::DelimitedListing(i) => collect_inline_xrefs(i, out),
        DelimitedBlockType::DelimitedLiteral(i) => collect_inline_xrefs(i, out),
        DelimitedBlockType::DelimitedPass(i) => collect_inline_xrefs(i, out),
        DelimitedBlockType::DelimitedVerse(i) => collect_inline_xrefs(i, out),
        DelimitedBlockType::DelimitedComment(i) => collect_inline_xrefs(i, out),
        DelimitedBlockType::DelimitedTable(t) => collect_table_xrefs(t, out),
        DelimitedBlockType::Other => {},
    }
    assert(out.deep_view() =~= before + delimited_uses(*inner));
}

fn collect_list_xrefs<'a>(list: &List<'a>, out: &mut Vec<Mention<'a>>)
    ensures
        final(out).deep_view() == old(out).deep_view() + list_uses(*list),
    decreases *list, 0nat,
{
    let ghost before = out.deep_view();
    collect_inline_xrefs(&list.title, out);
    collect_items_xrefs(&list.items, out);
    assert(out.deep_view() =~= before + list_uses(*list));
}

/// Collect the references of a block.
pub fn collect_block_xrefs<'a>(block: &Block<'a>, out: &mut Vec<Mention<'a>>)
    ensures
        final(out).deep_view() == old(out).deep_view() + block_uses(*block),
    decreases *block, 0nat,
{
    let ghost before = out.deep_view();
    match block {
        Block::Section(s) => {
            collect_inline_xrefs(&s.title, out);
            collect_blocks_xrefs(&s.content, out);
        },
        Block::Paragraph(p) => {
            collect_inline_xrefs(&p.title, out);
            collect_inline_xrefs(&p.content, out);
        },
        Block::DelimitedBlock(d) => {
            collect_inline_xrefs(&d.title, out);
            collect_delimited_block_xrefs(&d.inner, out);
        },
        Block::UnorderedList(l) => collect_list_xrefs(l, out),
        Block::OrderedList(l) => collect_list_xrefs(l, out),
        Block::DescriptionList(l) => {
            collect_inline_xrefs(&l.title, out);
            collect_terms_xrefs(&l.items, out);
        },
        Block::Admonition(a) => {
            collect_inline_xrefs(&a.title, out);
            collect_blocks_xrefs(&a.blocks, out);
        },
        Block::Image(m) => collect_inline_xrefs(&m.title, out),
        Block::Audio(m) => collect_inline_xrefs(&m.title, out),
        Block::Video(m) => collect_inline_xrefs(&m.title, out),
        Block::PageBreak(m) => collect_inline_xrefs(&m.title, out),
        Block::DiscreteHeader(m) => collect_inline_xrefs(&m.title, out),
        Block::CalloutList(l) => {
            collect_inline_xrefs(&l.title, out);
            collect_callouts_xrefs(&l.items, out);
        },
        Block::ThematicBreak(t) => {
            collect_inline_xrefs(&t.title, out);
        },
        Block::TableOfContents(_) => {},
        Block::Other(_) => {},
    }
    assert(out.deep_view() =~= before + block_uses(*block));
}

/// Collect the references of blocks.
fn collect_blocks_xrefs<'a>(items: &Vec<Block<'a>>, out: &mut Vec<Mention<'a>>)
    ensures
        final(out).deep_view() == old(out).deep_view() + blocks_uses(items@, items@.len()),
    decreases items@, items@.len(),
{
    let ghost before = out.deep_view();
    let mut i: usize = 0;
    assert(before + blocks_uses(items@, 0) =~= before);
    while i < items.len()
        invariant
            i <= items@.len(),
            out.deep_view() == before + blocks_uses(items@, i as nat),
        decreases items.len() - i,
    {
        let item = &items[i];
        let ghost now = out.deep_view();
        collect_block_xrefs(item, out);
        assert(out.deep_view() =~= before + blocks_uses(items@, (i + 1) as nat));
        i += 1;
    }
}

// ---------------------------------------------------------------------------
// What is wrong with them.
// ---------------------------------------------------------------------------

/// The place of the first declaration of an id.
pub open spec fn first_declared(decls: Seq<(Seq<char>, Location)>, id: Seq<char>) -> Option<
    Location,
>
    decreases decls.len(),
{
    if decls.len() == 0 {
        None
    } else if first_declared(decls.drop_last(), id) is Some {
        first_declared(decls.drop_last(), id)
    } else if decls.last().0 == id {
        Some(decls.last().1)
    } else {
        None
    }
}

/// Whether two locations are the same span of the source.
pub open spec fn same_span(a: Location, b: Location) -> bool {
    a.absolute_start == b.absolute_start && a.absolute_end == b.absolute_end
}

/// The warning that an id is declared a second time.
pub open spec fn duplicate_warning(id: Seq<char>, location: Location) -> WarningV {
    WarningV {
        kind: "DuplicateAnchorId"@,
        message: "duplicate anchor id: '"@ + id + "' is already defined"@,
        line: Some(location.start.line as usize),
        column: Some(location.start.column as usize),
    }
}

/// A warning for each declaration of an id that was declared before at another
/// place.
pub open spec fn duplicate_warnings(decls: Seq<(Seq<char>, Location)>) -> Seq<WarningV>
    decreases decls.len(),
{
    if decls.len() == 0 {
        Seq::empty()
    } else {
        let before = decls.drop_last();
        let (id, location) = decls.last();
        match first_declared(before, id) {
            Some(first) if !same_span(first, location) => duplicate_warnings(before).push(
                duplicate_warning(id, location),
            ),
            _ => duplicate_warnings(before),
        }
    }
}

/// Whether a character is the lower case letter `letter` or its upper case form.
pub open spec fn is_letter(c: char, letter: char) -> bool {
    c == letter || ('A' <= c <= 'Z' && c as u32 + 32 == letter as u32)
}

/// Whether a file name has the extension `ext`, which is in lower case, in either
/// case. A name that is nothing but a dot and an extension has none.
pub open spec fn has_extension(name: Seq<char>, ext: Seq<char>) -> bool {
    let dot = name.len() - ext.len() - 1;
    &&& dot > 0
    &&& name[dot] == '.'
    &&& forall|k: int| 0 <= k < ext.len() ==> is_letter(#[trigger] name[dot + 1 + k], ext[k])
}

/// Whether a target can only be an id of this document: no path, no URL, no file
/// name and no title.
pub open spec fn is_local_id(target: Seq<char>) -> bool {
    &&& target.len() > 0
    &&& !target.contains('#')
    &&& !target.contains('/')
    &&& !target.contains('\\')
    &&& !target.contains(':')
    &&& forall|k: int| 0 <= k < target.len() ==> !is_ws(#[trigger] target[k])
    &&& !has_extension(target, "adoc"@)
    &&& !has_extension(target, "asciidoc"@)
}

/// The warning that a reference leads nowhere.
pub open spec fn unresolved_warning(id: Seq<char>, location: Location) -> WarningV {
    WarningV {
        kind: "UnresolvedCrossReference"@,
        message: "unresolved cross-reference: no anchor with id '"@ + id + "'"@,
        line: Some(location.start.line as usize),
        column: Some(location.start.column as usize),
    }
}

/// Whether a reference leads nowhere.
pub open spec fn is_unresolved(decls: Seq<(Seq<char>, Location)>, target: Seq<char>) -> bool {
    is_local_id(target) && first_declared(decls, target) is None
}

/// A warning for each reference that leads nowhere.
pub open spec fn unresolved_warnings(
    decls: Seq<(Seq<char>, Location)>,
    uses: Seq<(Seq<char>, Location)>,
) -> Seq<WarningV>
    decreases uses.len(),
{
    if uses.len() == 0 {
        Seq::empty()
    } else {
        let before = unresolved_warnings(decls, uses.drop_last());
        if is_unresolved(decls, uses.last().0) {
            before.push(unresolved_warning(uses.last().0, uses.last().1))
        } else {
            before
        }
    }
}

/// What is wrong with the references of a document: first the duplicate anchors,
/// and behind them the references that lead nowhere.
pub open spec fn reference_warnings(blocks: Seq<Block<'_>>) -> Seq<WarningV> {
    let decls = blocks_decls(blocks, blocks.len());
    duplicate_warnings(decls) + unresolved_warnings(decls, blocks_uses(blocks, blocks.len()))
}

// ---------------------------------------------------------------------------
// Laws.
// ---------------------------------------------------------------------------

/// An id is declared exactly when one of the declarations is of it.
pub proof fn law_declared(decls: Seq<(Seq<char>, Location)>, id: Seq<char>)
    ensures
        first_declared(decls, id) is Some <==> exists|k: int|
            0 <= k < decls.len() && #[trigger] decls[k].0 == id,
    decreases decls.len(),
{
    if decls.len() > 0 {
        let before = decls.drop_last();
        law_declared(before, id);
        if first_declared(before, id) is Some {
            let k = choose|k: int| 0 <= k < before.len() && #[trigger] before[k].0 == id;
            assert(decls[k].0 == id);
        } else if decls.last().0 == id {
            assert(decls[decls.len() - 1].0 == id);
        } else if exists|k: int| 0 <= k < decls.len() && #[trigger] decls[k].0 == id {
            let k = choose|k: int| 0 <= k < decls.len() && #[trigger] decls[k].0 == id;
            assert(before[k].0 == id);
        }
    }
}

/// No warning comes of a reference to an id that is declared, wherever in the
/// document: where every local target is declared, there is none at all.
pub proof fn law_resolved_references(
    decls: Seq<(Seq<char>, Location)>,
    uses: Seq<(Seq<char>, Location)>,
)
    ensures
        unresolved_warnings(decls, uses).len() == 0 <==> forall|k: int|
            #![trigger uses[k]]
            0 <= k < uses.len() && is_local_id(uses[k].0) ==> exists|j: int|
                0 <= j < decls.len() && #[trigger] decls[j].0 == uses[k].0,
    decreases uses.len(),
{
    if uses.len() > 0 {
        let before = uses.drop_last();
        law_resolved_references(decls, before);
        law_declared(decls, uses.last().0);
        let last = uses.len() - 1;
        if unresolved_warnings(decls, uses).len() == 0 {
            assert forall|k: int| #![trigger uses[k]] 0 <= k < uses.len() && is_local_id(
                uses[k].0,
            ) implies exists|j: int| 0 <= j < decls.len() && #[trigger] decls[j].0
                == uses[k].0 by {
                if k < last {
                    assert(before[k] == uses[k]);
                }
            }
        } else if is_unresolved(decls, uses.last().0) {
            assert(uses[last] == uses.last());
        } else {
            assert(unresolved_warnings(decls, before).len() != 0);
            let k = choose|k: int|
                #![trigger before[k]]
                0 <= k < before.len() && is_local_id(before[k].0) && !exists|j: int|
                    0 <= j < decls.len() && #[trigger] decls[j].0 == before[k].0;
            assert(uses[k] == before[k]);
        }
    }
}

/// A declaration that is met a second time at the same place is not reported
/// against itself.
pub proof fn law_same_place_is_no_duplicate(
    decls: Seq<(Seq<char>, Location)>,
    id: Seq<char>,
    location: Location,
)
    requires
        first_declared(decls, id) is Some,
        same_span(first_declared(decls, id)->Some_0, location),
    ensures
        duplicate_warnings(decls.push((id, location))) == duplicate_warnings(decls),
{
    assert(decls.push((id, location)).drop_last() =~= decls);
}

/// The place of the first declaration is that of one of the declarations.
proof fn lemma_first_declared(decls: Seq<(Seq<char>, Location)>, id: Seq<char>)
    requires
        first_declared(decls, id) is Some,
    ensures
        exists|k: int|
            0 <= k < decls.len() && #[trigger] decls[k] == (
                id,
                first_declared(decls, id)->Some_0,
            ),
    decreases decls.len(),
{
    let before = decls.drop_last();
    if first_declared(before, id) is Some {
        lemma_first_declared(before, id);
        let first = first_declared(before, id)->Some_0;
        let k = choose|k: int| 0 <= k < before.len() && #[trigger] before[k] == (id, first);
        assert(decls[k] == before[k]);
    } else {
        assert(decls[decls.len() - 1] == decls.last());
    }
}

/// Duplicates are reported exactly where an id is declared at two places: there is
/// no warning if and only if all declarations of an id are of the same span.
pub proof fn law_duplicates_are_apart(decls: Seq<(Seq<char>, Location)>)
    ensures
        duplicate_warnings(decls).len() == 0 <==> forall|i: int, j: int|
            #![trigger decls[i], decls[j]]
            0 <= i < j < decls.len() && decls[i].0 == decls[j].0 ==> same_span(
                decls[i].1,
                decls[j].1,
            ),
    decreases decls.len(),
{
    if decls.len() > 0 {
        let before = decls.drop_last();
        let last = decls.len() - 1;
        let (id, location) = decls[last];
        law_duplicates_are_apart(before);
        law_declared(before, id);
        if first_declared(before, id) is Some {
            lemma_first_declared(before, id);
        }
        if duplicate_warnings(decls).len() == 0 {
            assert forall|i: int, j: int|
                #![trigger decls[i], decls[j]]
                0 <= i < j < decls.len() && decls[i].0 == decls[j].0 implies same_span(
                decls[i].1,
                decls[j].1,
            ) by {
                assert(before[i] == decls[i]);
                if j < last {
                    assert(before[j] == decls[j]);
                } else {
                    let first = first_declared(before, id)->Some_0;
                    let k = choose|k: int|
                        0 <= k < before.len() && #[trigger] before[k] == (id, first);
                    assert(same_span(before[k].1, before[i].1));
                }
            }
        } else if duplicate_warnings(before).len() != 0 {
            let (i, j) = choose|i: int, j: int|
                #![trigger before[i], before[j]]
                0 <= i < j < before.len() && before[i].0 == before[j].0 && !same_span(
                    before[i].1,
                    before[j].1,
                );
            assert(decls[i] == before[i] && decls[j] == before[j]);
        } else {
            let first = first_declared(before, id)->Some_0;
            let k = choose|k: int| 0 <= k < before.len() && #[trigger] before[k] == (id, first);
            assert(decls[k] == before[k]);
            assert(!same_span(decls[k].1, decls[last].1));
        }
    }
}

// ---------------------------------------------------------------------------
// Finding it.
// ---------------------------------------------------------------------------

/// The declarations so far, by id, hold the place of the first of each.
spec fn holds_first(anchors: Map<Seq<char>, Location>, decls: Seq<(Seq<char>, Location)>) -> bool {
    forall|id: Seq<char>|
        #![trigger anchors.contains_key(id)]
        #![trigger first_declared(decls, id)]
        first_declared(decls, id) == (if anchors.contains_key(id) {
            Some(anchors[id])
        } else {
            None
        })
}

fn quoted(before: &str, id: &str, after: &str) -> (r: String)
    ensures
        r@ == before@ + id@ + after@,
{
    let mut s = before.to_owned();
    s.append(id);
    s.append(after);
    s
}

/// Take one declaration: record its place if it is the first of its id, and warn
/// if it is at another place than the first.
fn insert_anchor(
    id: &str,
    location: Location,
    anchors: &mut StringHashMap<Location>,
    warnings: &mut Vec<RefWarning>,
    decls: Ghost<Seq<(Seq<char>, Location)>>,
)
    requires
        holds_first(old(anchors)@, decls@),
        old(warnings).deep_view() == duplicate_warnings(decls@),
    ensures
        holds_first(final(anchors)@, decls@.push((id@, location))),
        final(warnings).deep_view() == duplicate_warnings(decls@.push((id@, location))),
{
    let ghost next = decls@.push((id@, location));
    let ghost known = anchors@;
    let ghost before = warnings.deep_view();
    assert(next.drop_last() =~= decls@);
    assert(first_declared(decls@, id@) is Some <==> known.contains_key(id@));
    let found: Option<Location> = match anchors.get(id) {
        Some(l) => Some(*l),
        None => None,
    };
    match found {
        Some(first) => {
            if !(first.absolute_start == location.absolute_start && first.absolute_end
                == location.absolute_end) {
                let warning = RefWarning {
                    kind: "DuplicateAnchorId",
                    message: quoted("duplicate anchor id: '", id, "' is already defined"),
                    line: Some(location.start.line as usize),
                    column: Some(location.start.column as usize),
                };
                assert(warning.deep_view() =~= duplicate_warning(id@, location));
                warnings.push(warning);
                assert(warnings.deep_view() =~= before.push(duplicate_warning(id@, location)));
            }
            assert forall|k: Seq<char>|
                #![trigger anchors@.contains_key(k)]
                #![trigger first_declared(next, k)]
                first_declared(next, k) == (if anchors@.contains_key(k) {
                    Some(anchors@[k])
                } else {
                    None
                }) by {
                assert(first_declared(decls@, k) is Some <==> known.contains_key(k));
            }
        },
        None => {
            anchors.insert(id.to_owned(), location);
            assert forall|k: Seq<char>|
                #![trigger anchors@.contains_key(k)]
                #![trigger first_declared(next, k)]
                first_declared(next, k) == (if anchors@.contains_key(k) {
                    Some(anchors@[k])
                } else {
                    None
                }) by {
                assert(first_declared(decls@, k) is Some <==> known.contains_key(k));
            }
        },
    }
}

fn has_extension_of(name: &Vec<char>, ext: &str) -> (r: bool)
    ensures
        r == has_extension(name@, ext@),
{
    let letters = chars_of(ext);
    if name.len() < letters.len() || name.len() - letters.len() <= 1 {
        return false;
    }
    let dot: usize = name.len() - letters.len() - 1;
    if name[dot] != '.' {
        return false;
    }
    let mut k: usize = 0;
    while k < letters.len()
        invariant
            k <= letters@.len(),
            letters@ == ext@,
            0 < dot,
            dot + 1 + letters@.len() == name.len(),
            forall|j: int| 0 <= j < k ==> is_letter(#[trigger] name@[dot + 1 + j], ext@[j]),
        decreases letters.len() - k,
    {
        let c = name[dot + 1 + k];
        let letter = letters[k];
        if !(c == letter || ('A' <= c && c <= 'Z' && c as u32 + 32 == letter as u32)) {
            assert(!is_letter(name@[dot + 1 + k], ext@[k as int]));
            return false;
        }
        k += 1;
    }
    true
}

/// Whether a target can only be an id of this document.
pub fn is_verifiable_local_id(target: &str) -> (r: bool)
    ensures
        r == is_local_id(target@),
{
    let cs = chars_of(target);
    if cs.len() == 0 {
        return false;
    }
    if contains_char(target, '#') || contains_char(target, '/') || contains_char(target, '\\')
        || contains_char(target, ':') {
        return false;
    }
    let mut k: usize = 0;
    while k < cs.len()
        invariant
            k <= cs@.len(),
            cs@ == target@,
            forall|j: int| 0 <= j < k ==> !is_ws(#[trigger] target@[j]),
        decreases cs.len() - k,
    {
        if is_whitespace(cs[k]) {
            assert(is_ws(target@[k as int]));
            return false;
        }
        k += 1;
    }
    !has_extension_of(&cs, "adoc") && !has_extension_of(&cs, "asciidoc")
}

/// Find what is wrong with the references of a document.
pub fn collect_reference_warnings(doc: &Document<'_>) -> (r: Vec<RefWarning>)
    ensures
        r.deep_view() == reference_warnings(doc.blocks@),
{
    let mut warnings: Vec<RefWarning> = Vec::new();
    let mut anchors: StringHashMap<Location> = StringHashMap::new();
    let mut declared: Vec<Mention<'_>> = Vec::new();
    assert(declared.deep_view() =~= Seq::empty());
    collect_blocks_anchors(&doc.blocks, &mut declared);
    let ghost decls = blocks_decls(doc.blocks@, doc.blocks@.len());
    assert(declared.deep_view() =~= decls);
    let mut i: usize = 0;
    assert(decls.take(0) =~= Seq::empty());
    assert(warnings.deep_view() =~= Seq::empty());
    while i < declared.len()
        invariant
            i <= declared@.len(),
            declared.deep_view() == decls,
            holds_first(anchors@, decls.take(i as int)),
            warnings.deep_view() == duplicate_warnings(decls.take(i as int)),
        decreases declared.len() - i,
    {
        let d = declared[i];
        assert(decls[i as int] == d.deep_view());
        assert(decls.take(i + 1) =~= decls.take(i as int).push((d.id@, d.location)));
        insert_anchor(d.id, d.location, &mut anchors, &mut warnings, Ghost(decls.take(i as int)));
        i += 1;
    }
    assert(decls.take(i as int) =~= decls);
    let mut referred: Vec<Mention<'_>> = Vec::new();
    assert(referred.deep_view() =~= Seq::empty());
    collect_blocks_xrefs(&doc.blocks, &mut referred);
    let ghost uses = blocks_uses(doc.blocks@, doc.blocks@.len());
    assert(referred.deep_view() =~= uses);
    let ghost duplicates = duplicate_warnings(decls);
    let mut k: usize = 0;
    assert(uses.take(0) =~= Seq::empty());
    assert(duplicates + unresolved_warnings(decls, uses.take(0)) =~= duplicates);
    while k < referred.len()
        invariant
            k <= referred@.len(),
            referred.deep_view() == uses,
            holds_first(anchors@, decls),
            warnings.deep_view() == duplicates + unresolved_warnings(decls, uses.take(k as int)),
        decreases referred.len() - k,
    {
        let u = referred[k];
        assert(uses[k as int] == u.deep_view());
        assert(uses.take(k + 1).drop_last() =~= uses.take(k as int));
        let ghost before = warnings.deep_view();
        assert(first_declared(decls, u.id@) is None <==> !anchors@.contains_key(u.id@));
        if is_verifiable_local_id(u.id) && !anchors.contains_key(u.id) {
            let warning = RefWarning {
                kind: "UnresolvedCrossReference",
                message: quoted("unresolved cross-reference: no anchor with id '", u.id, "'"),
                line: Some(u.location.start.line as usize),
                column: Some(u.location.start.column as usize),
            };
            assert(warning.deep_view() =~= unresolved_warning(u.id@, u.location));
            warnings.push(warning);
            assert(warnings.deep_view() =~= before.push(unresolved_warning(u.id@, u.location)));
        }
        assert(warnings.deep_view() =~= duplicates + unresolved_warnings(
            decls,
            uses.take(k + 1),
        ));
        k += 1;
    }
    assert(uses.take(k as int) =~= uses);
    warnings
}

} // verus!

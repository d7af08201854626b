//! The tree of a document: which node stands in which, in the order of the document,
//! and what the nodes declare and refer to.

use crate::model::anchor::Anchor;
use crate::model::document::{
    inline_location, Block, BlockMetadata, CalloutListItem, DelimitedBlockType,
    DescriptionListItem, InlineMacro, InlineNode, ListItem, Section, Span, Table, TableColumn,
    TableRow,
};
use crate::model::Location;
use crate::text::is_ws;
use crate::validate::{
    anchors_decls, block_decls, block_uses, blocks_decls, blocks_uses, callouts_decls,
    callouts_uses, columns_decls, columns_uses, delimited_decls, delimited_uses,
    duplicate_warnings, edge_row_decls, edge_row_uses, first_declared, has_id, inline_decls,
    inline_uses, inlines_decls, inlines_uses, is_letter, is_local_id, item_decls, item_uses,
    items_decls, items_uses, law_declared, metadata_decls, own_decls, reference_warnings, repeats,
    rows_decls, rows_uses, section_decls, table_decls, table_uses, term_decls, term_uses,
    terms_decls, terms_uses, unresolved_warning, unresolved_warnings, WarningV,
};
use vstd::prelude::*;
use vstd::string::*;

verus! {

/// A node of the tree.
pub enum Node<'a> {
    Block(Block<'a>),
    Term(DescriptionListItem<'a>),
    Inline(InlineNode<'a>),
}

/// What a node may do with an id.
pub enum Role {
    Declares,
    Refers,
}

// ---------------------------------------------------------------------------
// Which node stands in which.
// ---------------------------------------------------------------------------

/// Inline content, as nodes.
pub open spec fn inlines<'a>(nodes: Seq<InlineNode<'a>>) -> Seq<Node<'a>> {
    Seq::new(nodes.len(), |k: int| Node::Inline(nodes[k]))
}

/// Blocks, as nodes.
pub open spec fn blocks<'a>(nodes: Seq<Block<'a>>) -> Seq<Node<'a>> {
    Seq::new(nodes.len(), |k: int| Node::Block(nodes[k]))
}

/// Terms, as nodes.
pub open spec fn terms<'a>(items: Seq<DescriptionListItem<'a>>) -> Seq<Node<'a>> {
    Seq::new(items.len(), |k: int| Node::Term(items[k]))
}

/// The nodes of the items of a list: of each its text, and the blocks behind it.
pub open spec fn items_nodes<'a>(items: Seq<ListItem<'a>>) -> Seq<Node<'a>>
    decreases items.len(),
{
    if items.len() == 0 {
        Seq::empty()
    } else {
        items_nodes(items.drop_last()) + inlines(items.last().principal@) + blocks(
            items.last().blocks@,
        )
    }
}

/// The nodes of the explanations of callouts.
pub open spec fn callouts_nodes<'a>(items: Seq<CalloutListItem<'a>>) -> Seq<Node<'a>>
    decreases items.len(),
{
    if items.len() == 0 {
        Seq::empty()
    } else {
        callouts_nodes(items.drop_last()) + inlines(items.last().principal@)
    }
}

/// The nodes of the cells of a row.
pub open spec fn cells_nodes<'a>(columns: Seq<TableColumn<'a>>) -> Seq<Node<'a>>
    decreases columns.len(),
{
    if columns.len() == 0 {
        Seq::empty()
    } else {
        cells_nodes(columns.drop_last()) + blocks(columns.last().content@)
    }
}

/// The nodes of the rows of a table.
pub open spec fn rows_nodes<'a>(rows: Seq<TableRow<'a>>) -> Seq<Node<'a>>
    decreases rows.len(),
{
    if rows.len() == 0 {
        Seq::empty()
    } else {
        rows_nodes(rows.drop_last()) + cells_nodes(rows.last().columns@)
    }
}

/// The nodes of a row that may be missing.
pub open spec fn edge_nodes<'a>(row: Option<TableRow<'a>>) -> Seq<Node<'a>> {
    match row {
        Some(r) => cells_nodes(r.columns@),
        None => Seq::empty(),
    }
}

/// The nodes between the delimiters of a block.
pub open spec fn delimited_nodes<'a>(inner: DelimitedBlockType<'a>) -> Seq<Node<'a>> {
    match inner {
        DelimitedBlockType::DelimitedExample(b) => blocks(b@),
        DelimitedBlockType::DelimitedOpen(b) => blocks(b@),
        DelimitedBlockType::DelimitedSidebar(b) => blocks(b@),
        DelimitedBlockType::DelimitedQuote(b) => blocks(b@),
        DelimitedBlockType::DelimitedListing(i) => inlines(i@),
        DelimitedBlockType::DelimitedLiteral(i) => inlines(i@),
        DelimitedBlockType::DelimitedPass(i) => inlines(i@),
        DelimitedBlockType::DelimitedVerse(i) => inlines(i@),
        DelimitedBlockType::DelimitedComment(i) => inlines(i@),
        DelimitedBlockType::DelimitedTable(t) => edge_nodes(t.header) + rows_nodes(t.rows@)
            + edge_nodes(t.footer),
        DelimitedBlockType::Other => Seq::empty(),
    }
}

/// The formatted span that a node is.
pub open spec fn as_span<'a>(node: InlineNode<'a>) -> Option<Span<'a>> {
    match node {
        InlineNode::BoldText(s) => Some(s),
        InlineNode::ItalicText(s) => Some(s),
        InlineNode::MonospaceText(s) => Some(s),
        InlineNode::HighlightText(s) => Some(s),
        InlineNode::SubscriptText(s) => Some(s),
        InlineNode::SuperscriptText(s) => Some(s),
        InlineNode::CurvedQuotationText(s) => Some(s),
        InlineNode::CurvedApostropheText(s) => Some(s),
        _ => None,
    }
}

/// The nodes in a piece of inline content.
pub open spec fn inline_parts<'a>(node: InlineNode<'a>) -> Seq<Node<'a>> {
    match node {
        InlineNode::Macro(InlineMacro::Footnote(f)) => inlines(f.content@),
        InlineNode::Macro(InlineMacro::Link(l)) => inlines(l.text@),
        InlineNode::Macro(InlineMacro::Url(l)) => inlines(l.text@),
        InlineNode::Macro(InlineMacro::Mailto(l)) => inlines(l.text@),
        InlineNode::Macro(InlineMacro::Image(i)) => inlines(i.title@),
        InlineNode::Macro(InlineMacro::CrossReference(x)) => inlines(x.text@),
        _ => match as_span(node) {
            Some(s) => inlines(s.content@),
            None => Seq::empty(),
        },
    }
}

/// The nodes in a block: its title, and what follows. The title of a table of
/// contents is no part of the text.
pub open spec fn block_parts<'a>(block: Block<'a>) -> Seq<Node<'a>> {
    match block {
        Block::Section(s) => inlines(s.title@) + blocks(s.content@),
        Block::Paragraph(p) => inlines(p.title@) + inlines(p.content@),
        Block::DelimitedBlock(d) => inlines(d.title@) + delimited_nodes(d.inner),
        Block::UnorderedList(l) => inlines(l.title@) + items_nodes(l.items@),
        Block::OrderedList(l) => inlines(l.title@) + items_nodes(l.items@),
        Block::DescriptionList(l) => inlines(l.title@) + terms(l.items@),
        Block::Admonition(a) => inlines(a.title@) + blocks(a.blocks@),
        Block::Image(m) => inlines(m.title@),
        Block::Audio(m) => inlines(m.title@),
        Block::Video(m) => inlines(m.title@),
        Block::PageBreak(m) => inlines(m.title@),
        Block::DiscreteHeader(m) => inlines(m.title@),
        Block::CalloutList(l) => inlines(l.title@) + callouts_nodes(l.items@),
        Block::ThematicBreak(t) => inlines(t.title@),
        Block::TableOfContents(_) => Seq::empty(),
        Block::Other(_) => Seq::empty(),
    }
}

/// The nodes that stand in a node, in the order of the document.
pub open spec fn parts<'a>(node: Node<'a>) -> Seq<Node<'a>> {
    match node {
        Node::Block(b) => block_parts(b),
        Node::Term(t) => inlines(t.term@) + inlines(t.principal_text@) + blocks(t.description@),
        Node::Inline(n) => inline_parts(n),
    }
}

/// Whether each node of a path stands in the one before it.
pub open spec fn is_path(path: Seq<Node<'_>>) -> bool {
    &&& path.len() > 0
    &&& forall|k: int|
        0 < k < path.len() ==> parts(path[k - 1]).contains(#[trigger] path[k])
}

// ---------------------------------------------------------------------------
// What a node says itself.
// ---------------------------------------------------------------------------

/// The metadata of a block, but for a section, the id of which is its own.
pub open spec fn metadata_of<'a>(block: Block<'a>) -> Option<BlockMetadata<'a>> {
    match block {
        Block::Section(_) => None,
        Block::Paragraph(p) => Some(p.metadata),
        Block::DelimitedBlock(d) => Some(d.metadata),
        Block::UnorderedList(l) => Some(l.metadata),
        Block::OrderedList(l) => Some(l.metadata),
        Block::DescriptionList(l) => Some(l.metadata),
        Block::Admonition(a) => Some(a.metadata),
        Block::Image(m) => Some(m.metadata),
        Block::Audio(m) => Some(m.metadata),
        Block::Video(m) => Some(m.metadata),
        Block::PageBreak(m) => Some(m.metadata),
        Block::DiscreteHeader(m) => Some(m.metadata),
        Block::CalloutList(l) => Some(l.metadata),
        Block::ThematicBreak(_) => None,
        Block::TableOfContents(m) => Some(m.metadata),
        Block::Other(_) => None,
    }
}

/// The ids of anchors, each with its place.
pub open spec fn anchor_mentions(anchors: Seq<Anchor<'_>>) -> Seq<(Seq<char>, Location)> {
    Seq::new(anchors.len(), |k: int| (anchors[k].id@, anchors[k].location))
}

/// The ids that a node declares itself, whatever stands in it.
pub open spec fn declared_by(node: Node<'_>) -> Seq<(Seq<char>, Location)> {
    match node {
        Node::Inline(InlineNode::InlineAnchor(a)) => seq![(a.id@, a.location)],
        Node::Inline(InlineNode::Macro(InlineMacro::Footnote(f))) => match f.id {
            Some(id) if f.content@.len() > 0 => seq![(id@, f.location)],
            _ => Seq::empty(),
        },
        Node::Inline(InlineNode::Macro(InlineMacro::Image(i))) => metadata_decls(i.metadata),
        Node::Inline(n) => match as_span(n) {
            Some(s) => match s.id {
                Some(id) => seq![(id@, s.location)],
                None => Seq::empty(),
            },
            None => Seq::empty(),
        },
        Node::Term(t) => anchor_mentions(t.anchors@),
        Node::Block(Block::Section(s)) => section_decls(s),
        Node::Block(Block::ThematicBreak(t)) => anchor_mentions(t.anchors@),
        Node::Block(b) => match metadata_of(b) {
            Some(m) => metadata_decls(m),
            None => Seq::empty(),
        },
    }
}

/// The reference that a node is, whatever stands in it.
pub open spec fn referred_by(node: Node<'_>) -> Seq<(Seq<char>, Location)> {
    match node {
        Node::Inline(InlineNode::Macro(InlineMacro::CrossReference(x))) => seq![
            (x.target@, x.location),
        ],
        _ => Seq::empty(),
    }
}

/// What a node says itself.
pub open spec fn said_by(role: Role, node: Node<'_>) -> Seq<(Seq<char>, Location)> {
    match role {
        Role::Declares => declared_by(node),
        Role::Refers => referred_by(node),
    }
}

/// What is collected from a node.
pub open spec fn collected(role: Role, node: Node<'_>) -> Seq<(Seq<char>, Location)> {
    match (role, node) {
        (Role::Declares, Node::Block(b)) => block_decls(b),
        (Role::Declares, Node::Term(t)) => term_decls(t),
        (Role::Declares, Node::Inline(n)) => inline_decls(n),
        (Role::Refers, Node::Block(b)) => block_uses(b),
        (Role::Refers, Node::Term(t)) => term_uses(t),
        (Role::Refers, Node::Inline(n)) => inline_uses(n),
    }
}

/// What is collected from nodes, one behind the other.
pub open spec fn all_collected(role: Role, nodes: Seq<Node<'_>>) -> Seq<(Seq<char>, Location)>
    decreases nodes.len(),
{
    if nodes.len() == 0 {
        Seq::empty()
    } else {
        all_collected(role, nodes.drop_last()) + collected(role, nodes.last())
    }
}

// ---------------------------------------------------------------------------
// Facts about sequences of nodes.
// ---------------------------------------------------------------------------

proof fn lemma_collected_concat(role: Role, a: Seq<Node<'_>>, b: Seq<Node<'_>>)
    ensures
        all_collected(role, a + b) == all_collected(role, a) + all_collected(role, b),
    decreases b.len(),
{
    if b.len() == 0 {
        assert(a + b =~= a);
    } else {
        lemma_collected_concat(role, a, b.drop_last());
        assert((a + b).drop_last() =~= a + b.drop_last());
    }
}

proof fn lemma_collected_part(role: Role, nodes: Seq<Node<'_>>, k: int, m: (Seq<char>, Location))
    requires
        0 <= k < nodes.len(),
        collected(role, nodes[k]).contains(m),
    ensures
        all_collected(role, nodes).contains(m),
    decreases nodes.len(),
{
    let before = all_collected(role, nodes.drop_last());
    let last = collected(role, nodes.last());
    if k < nodes.len() - 1 {
        lemma_collected_part(role, nodes.drop_last(), k, m);
        let j = choose|j: int| 0 <= j < before.len() && before[j] == m;
        assert((before + last)[j] == m);
    } else {
        let j = choose|j: int| 0 <= j < last.len() && last[j] == m;
        assert((before + last)[before.len() + j] == m);
    }
}

proof fn lemma_collected_whence(role: Role, nodes: Seq<Node<'_>>, m: (Seq<char>, Location))
    requires
        all_collected(role, nodes).contains(m),
    ensures
        exists|k: int| 0 <= k < nodes.len() && collected(role, #[trigger] nodes[k]).contains(m),
    decreases nodes.len(),
{
    if nodes.len() > 0 {
        let before = all_collected(role, nodes.drop_last());
        let last = collected(role, nodes.last());
        let j = choose|j: int| 0 <= j < (before + last).len() && (before + last)[j] == m;
        if j < before.len() {
            assert(before[j] == m);
            lemma_collected_whence(role, nodes.drop_last(), m);
            let k = choose|k: int|
                0 <= k < nodes.drop_last().len() && collected(
                    role,
                    #[trigger] nodes.drop_last()[k],
                ).contains(m);
            assert(nodes[k] == nodes.drop_last()[k]);
        } else {
            assert(last[j - before.len()] == m);
            assert(nodes[nodes.len() - 1] == nodes.last());
        }
    }
}

proof fn lemma_inlines(role: Role, nodes: Seq<InlineNode<'_>>, n: nat)
    requires
        n <= nodes.len(),
    ensures
        all_collected(role, inlines(nodes.take(n as int))) == match role {
            Role::Declares => inlines_decls(nodes, n),
            Role::Refers => inlines_uses(nodes, n),
        },
    decreases n,
{
    if n > 0 {
        lemma_inlines(role, nodes, (n - 1) as nat);
        let now = inlines(nodes.take(n as int));
        assert(now.drop_last() =~= inlines(nodes.take(n - 1)));
        assert(now.last() == Node::Inline(nodes[n - 1]));
    }
}

proof fn lemma_blocks(role: Role, nodes: Seq<Block<'_>>, n: nat)
    requires
        n <= nodes.len(),
    ensures
        all_collected(role, blocks(nodes.take(n as int))) == match role {
            Role::Declares => blocks_decls(nodes, n),
            Role::Refers => blocks_uses(nodes, n),
        },
    decreases n,
{
    if n > 0 {
        lemma_blocks(role, nodes, (n - 1) as nat);
        let now = blocks(nodes.take(n as int));
        assert(now.drop_last() =~= blocks(nodes.take(n - 1)));
        assert(now.last() == Node::Block(nodes[n - 1]));
    }
}

proof fn lemma_terms(role: Role, items: Seq<DescriptionListItem<'_>>, n: nat)
    requires
        n <= items.len(),
    ensures
        all_collected(role, terms(items.take(n as int))) == match role {
            Role::Declares => terms_decls(items, n),
            Role::Refers => terms_uses(items, n),
        },
    decreases n,
{
    if n > 0 {
        lemma_terms(role, items, (n - 1) as nat);
        let now = terms(items.take(n as int));
        assert(now.drop_last() =~= terms(items.take(n - 1)));
        assert(now.last() == Node::Term(items[n - 1]));
    }
}

/// All of some inline content.
proof fn lemma_all_inlines(role: Role, nodes: Seq<InlineNode<'_>>)
    ensures
        all_collected(role, inlines(nodes)) == match role {
            Role::Declares => inlines_decls(nodes, nodes.len()),
            Role::Refers => inlines_uses(nodes, nodes.len()),
        },
{
    lemma_inlines(role, nodes, nodes.len());
    assert(nodes.take(nodes.len() as int) =~= nodes);
}

/// All of some blocks.
proof fn lemma_all_blocks(role: Role, nodes: Seq<Block<'_>>)
    ensures
        all_collected(role, blocks(nodes)) == match role {
            Role::Declares => blocks_decls(nodes, nodes.len()),
            Role::Refers => blocks_uses(nodes, nodes.len()),
        },
{
    lemma_blocks(role, nodes, nodes.len());
    assert(nodes.take(nodes.len() as int) =~= nodes);
}

proof fn lemma_items(role: Role, items: Seq<ListItem<'_>>, n: nat)
    requires
        n <= items.len(),
    ensures
        all_collected(role, items_nodes(items.take(n as int))) == match role {
            Role::Declares => items_decls(items, n),
            Role::Refers => items_uses(items, n),
        },
    decreases n,
{
    if n > 0 {
        lemma_items(role, items, (n - 1) as nat);
        let now = items.take(n as int);
        assert(now.drop_last() =~= items.take(n - 1));
        let a = items_nodes(now.drop_last());
        let b = inlines(now.last().principal@);
        let c = blocks(now.last().blocks@);
        lemma_collected_concat(role, a + b, c);
        lemma_collected_concat(role, a, b);
        lemma_all_inlines(role, now.last().principal@);
        lemma_all_blocks(role, now.last().blocks@);
        let item = items[n - 1];
        assert(item_decls(item) == inlines_decls(item.principal@, item.principal@.len())
            + blocks_decls(item.blocks@, item.blocks@.len()));
        assert(item_uses(item) == inlines_uses(item.principal@, item.principal@.len())
            + blocks_uses(item.blocks@, item.blocks@.len()));
        assert(all_collected(role, a) + all_collected(role, b) + all_collected(role, c)
            =~= all_collected(role, a) + (all_collected(role, b) + all_collected(role, c)));
    }
}

proof fn lemma_callouts(role: Role, items: Seq<CalloutListItem<'_>>, n: nat)
    requires
        n <= items.len(),
    ensures
        all_collected(role, callouts_nodes(items.take(n as int))) == match role {
            Role::Declares => callouts_decls(items, n),
            Role::Refers => callouts_uses(items, n),
        },
    decreases n,
{
    if n > 0 {
        lemma_callouts(role, items, (n - 1) as nat);
        let now = items.take(n as int);
        assert(now.drop_last() =~= items.take(n - 1));
        lemma_collected_concat(
            role,
            callouts_nodes(now.drop_last()),
            inlines(now.last().principal@),
        );
        lemma_all_inlines(role, now.last().principal@);
    }
}

proof fn lemma_cells(role: Role, columns: Seq<TableColumn<'_>>, n: nat)
    requires
        n <= columns.len(),
    ensures
        all_collected(role, cells_nodes(columns.take(n as int))) == match role {
            Role::Declares => columns_decls(columns, n),
            Role::Refers => columns_uses(columns, n),
        },
    decreases n,
{
    if n > 0 {
        lemma_cells(role, columns, (n - 1) as nat);
        let now = columns.take(n as int);
        assert(now.drop_last() =~= columns.take(n - 1));
        lemma_collected_concat(role, cells_nodes(now.drop_last()), blocks(now.last().content@));
        lemma_all_blocks(role, now.last().content@);
    }
}

/// All cells of a row.
proof fn lemma_all_cells(role: Role, columns: Seq<TableColumn<'_>>)
    ensures
        all_collected(role, cells_nodes(columns)) == match role {
            Role::Declares => columns_decls(columns, columns.len()),
            Role::Refers => columns_uses(columns, columns.len()),
        },
{
    lemma_cells(role, columns, columns.len());
    assert(columns.take(columns.len() as int) =~= columns);
}

proof fn lemma_rows(role: Role, rows: Seq<TableRow<'_>>, n: nat)
    requires
        n <= rows.len(),
    ensures
        all_collected(role, rows_nodes(rows.take(n as int))) == match role {
            Role::Declares => rows_decls(rows, n),
            Role::Refers => rows_uses(rows, n),
        },
    decreases n,
{
    if n > 0 {
        lemma_rows(role, rows, (n - 1) as nat);
        let now = rows.take(n as int);
        assert(now.drop_last() =~= rows.take(n - 1));
        lemma_collected_concat(
            role,
            rows_nodes(now.drop_last()),
            cells_nodes(now.last().columns@),
        );
        lemma_all_cells(role, now.last().columns@);
    }
}

proof fn lemma_edge(role: Role, row: Option<TableRow<'_>>)
    ensures
        all_collected(role, edge_nodes(row)) == match role {
            Role::Declares => edge_row_decls(row),
            Role::Refers => edge_row_uses(row),
        },
{
    match row {
        Some(r) => lemma_all_cells(role, r.columns@),
        None => {},
    }
}

proof fn lemma_table(role: Role, t: Table<'_>)
    ensures
        all_collected(role, edge_nodes(t.header) + rows_nodes(t.rows@) + edge_nodes(t.footer))
            == match role {
            Role::Declares => table_decls(t),
            Role::Refers => table_uses(t),
        },
{
    lemma_collected_concat(role, edge_nodes(t.header) + rows_nodes(t.rows@), edge_nodes(t.footer));
    lemma_collected_concat(role, edge_nodes(t.header), rows_nodes(t.rows@));
    lemma_edge(role, t.header);
    lemma_rows(role, t.rows@, t.rows@.len());
    assert(t.rows@.take(t.rows@.len() as int) =~= t.rows@);
    lemma_edge(role, t.footer);
}

proof fn lemma_delimited(role: Role, inner: DelimitedBlockType<'_>)
    ensures
        all_collected(role, delimited_nodes(inner)) == match role {
            Role::Declares => delimited_decls(inner),
            Role::Refers => delimited_uses(inner),
        },
{
    match inner {
        DelimitedBlockType::DelimitedExample(b) => lemma_all_blocks(role, b@),
        DelimitedBlockType::DelimitedOpen(b) => lemma_all_blocks(role, b@),
        DelimitedBlockType::DelimitedSidebar(b) => lemma_all_blocks(role, b@),
        DelimitedBlockType::DelimitedQuote(b) => lemma_all_blocks(role, b@),
        DelimitedBlockType::DelimitedListing(i) => lemma_all_inlines(role, i@),
        DelimitedBlockType::DelimitedLiteral(i) => lemma_all_inlines(role, i@),
        DelimitedBlockType::DelimitedPass(i) => lemma_all_inlines(role, i@),
        DelimitedBlockType::DelimitedVerse(i) => lemma_all_inlines(role, i@),
        DelimitedBlockType::DelimitedComment(i) => lemma_all_inlines(role, i@),
        DelimitedBlockType::DelimitedTable(t) => lemma_table(role, t),
        DelimitedBlockType::Other => {},
    }
}

proof fn lemma_anchors(anchors: Seq<Anchor<'_>>, n: nat)
    requires
        n <= anchors.len(),
    ensures
        anchors_decls(anchors, n) == anchor_mentions(anchors).take(n as int),
    decreases n,
{
    if n > 0 {
        lemma_anchors(anchors, (n - 1) as nat);
    }
    assert(anchors_decls(anchors, n) =~= anchor_mentions(anchors).take(n as int));
}

/// All of some anchors.
proof fn lemma_all_anchors(anchors: Seq<Anchor<'_>>)
    ensures
        anchors_decls(anchors, anchors.len()) == anchor_mentions(anchors),
{
    lemma_anchors(anchors, anchors.len());
    assert(anchor_mentions(anchors).take(anchors.len() as int) =~= anchor_mentions(anchors));
}

/// Whether one of some declarations is of the id.
pub open spec fn declares(decls: Seq<(Seq<char>, Location)>, id: Seq<char>) -> bool {
    exists|k: int| 0 <= k < decls.len() && (#[trigger] decls[k]).0 == id
}

/// Whether the declaration `i` is the first of the id.
pub open spec fn is_first(decls: Seq<(Seq<char>, Location)>, i: int, id: Seq<char>) -> bool {
    &&& 0 <= i < decls.len()
    &&& decls[i].0 == id
    &&& forall|k: int| 0 <= k < i ==> (#[trigger] decls[k]).0 != id
}

/// Whether a declaration is that of an anchor, the first of its id.
pub open spec fn stands_first(anchors: Seq<Anchor<'_>>, m: (Seq<char>, Location)) -> bool {
    exists|k: int|
        0 <= k < anchors.len() && m == ((#[trigger] anchors[k]).id@, anchors[k].location)
            && forall|i: int| 0 <= i < k ==> (#[trigger] anchors[i]).id@ != anchors[k].id@
}

#[verifier::rlimit(30)]
proof fn lemma_own(
    anchors: Seq<Anchor<'_>>,
    n: nat,
    id: Option<Anchor<'_>>,
    section_id: Option<Seq<char>>,
)
    requires
        n <= anchors.len(),
    ensures
        ({
            let d = own_decls(anchors, n, id, section_id);
            &&& forall|j: int|
                0 <= j < d.len() ==> stands_first(anchors.take(n as int), #[trigger] d[j])
                    && stands_first(anchors, d[j]) && section_id != Some(d[j].0)
                    && !(id matches Some(a) && a.id@ == d[j].0)
            &&& forall|k: int|
                0 <= k < n ==> declares(d, (#[trigger] anchors[k]).id@) || section_id == Some(
                    anchors[k].id@,
                ) || (id matches Some(a) && a.id@ == anchors[k].id@)
            &&& forall|i: int, j: int|
                0 <= i < j < d.len() ==> (#[trigger] d[i]).0 != (#[trigger] d[j]).0
        }),
    decreases n,
{
    if n > 0 {
        let before = own_decls(anchors, (n - 1) as nat, id, section_id);
        let d = own_decls(anchors, n, id, section_id);
        let a = anchors[n - 1];
        let now = anchors.take(n as int);
        let earlier = anchors.take(n - 1);
        lemma_own(anchors, (n - 1) as nat, id, section_id);
        assert forall|j: int| 0 <= j < before.len() implies stands_first(
            now,
            #[trigger] before[j],
        ) && (exists|k: int| 0 <= k < n - 1 && (#[trigger] anchors[k]).id@ == before[j].0) by {
            let k = choose|k: int|
                0 <= k < earlier.len() && before[j] == (
                    (#[trigger] earlier[k]).id@,
                    earlier[k].location,
                ) && forall|i: int|
                    0 <= i < k ==> (#[trigger] earlier[i]).id@ != earlier[k].id@;
            assert(now[k] == earlier[k] && anchors[k] == earlier[k]);
            assert forall|i: int| 0 <= i < k implies (#[trigger] now[i]).id@ != now[k].id@ by {
                assert(earlier[i] == now[i]);
            }
        }
        assert forall|k: int| 0 <= k < n - 1 && declares(
            before,
            (#[trigger] anchors[k]).id@,
        ) implies declares(d, anchors[k].id@) by {
            let j = choose|j: int|
                0 <= j < before.len() && (#[trigger] before[j]).0 == anchors[k].id@;
            assert(d[j].0 == anchors[k].id@);
        }
        if has_id(id, a.id@) || section_id == Some(a.id@) {
        } else if repeats(anchors, n - 1) {
            let j = choose|j: int| 0 <= j < n - 1 && #[trigger] anchors[j].id@ == a.id@;
            assert(declares(before, anchors[j].id@));
        } else {
            assert(d[d.len() - 1] == (a.id@, a.location));
            assert(declares(d, a.id@));
            assert(now[n - 1] == a);
            assert forall|i: int| 0 <= i < n - 1 implies (#[trigger] now[i]).id@ != a.id@ by {
                assert(anchors[i] == now[i]);
            }
            assert(stands_first(now, d[d.len() - 1]));
            assert(stands_first(anchors, d[d.len() - 1]));
        }
    }
}

proof fn lemma_own_distinct(anchors: Seq<Anchor<'_>>, n: nat, id: Option<Anchor<'_>>)
    requires
        n <= anchors.len(),
        forall|i: int, j: int|
            0 <= i < j < anchors.len() ==> (#[trigger] anchors[i]).id@ != (
            #[trigger] anchors[j]).id@,
        id matches Some(a) ==> forall|k: int|
            0 <= k < anchors.len() ==> (#[trigger] anchors[k]).id@ != a.id@,
    ensures
        own_decls(anchors, n, id, None) == anchor_mentions(anchors).take(n as int),
    decreases n,
{
    if n > 0 {
        lemma_own_distinct(anchors, (n - 1) as nat, id);
        assert(!repeats(anchors, n - 1));
        assert(!has_id(id, anchors[n - 1].id@));
    }
    assert(own_decls(anchors, n, id, None) =~= anchor_mentions(anchors).take(n as int));
}

proof fn lemma_is_first(decls: Seq<(Seq<char>, Location)>, id: Seq<char>)
    ensures
        first_declared(decls, id) matches Some(first) ==> exists|i: int|
            is_first(decls, i, id) && (#[trigger] decls[i]).1 == first,
        first_declared(decls, id) is None ==> !declares(decls, id),
    decreases decls.len(),
{
    law_declared(decls, id);
    if decls.len() > 0 {
        let before = decls.drop_last();
        lemma_is_first(before, id);
        match first_declared(before, id) {
            Some(first) => {
                let i = choose|i: int| is_first(before, i, id) && (#[trigger] before[i]).1
                    == first;
                assert(decls[i] == before[i]);
                assert forall|k: int| 0 <= k < i implies (#[trigger] decls[k]).0 != id by {
                    assert(decls[k] == before[k]);
                }
                assert(is_first(decls, i, id));
            },
            None => {
                let n = decls.len() - 1;
                assert forall|k: int| 0 <= k < n implies (#[trigger] decls[k]).0 != id by {
                    assert(decls[k] == before[k]);
                }
                if decls.last().0 == id {
                    assert(is_first(decls, n, id) && decls[n].1 == decls.last().1);
                }
            },
        }
    }
}

// ---------------------------------------------------------------------------
// Laws.
// ---------------------------------------------------------------------------

/// What is collected from a node is what it says itself, and behind it what is
/// collected from each node that stands in it, in the order of the document.
pub proof fn law_collected_from_a_node(role: Role, node: Node<'_>)
    ensures
        collected(role, node) == said_by(role, node) + all_collected(role, parts(node)),
{
    match node {
        Node::Block(b) => lemma_block(role, b),
        Node::Term(t) => {
            let a = inlines(t.term@);
            let b = inlines(t.principal_text@);
            let c = blocks(t.description@);
            lemma_collected_concat(role, a + b, c);
            lemma_collected_concat(role, a, b);
            lemma_all_inlines(role, t.term@);
            lemma_all_inlines(role, t.principal_text@);
            lemma_all_blocks(role, t.description@);
            lemma_all_anchors(t.anchors@);
            assert(collected(role, node) =~= said_by(role, node) + all_collected(
                role,
                parts(node),
            ));
        },
        Node::Inline(n) => {
            match n {
                InlineNode::Macro(InlineMacro::Footnote(f)) => lemma_all_inlines(role, f.content@),
                InlineNode::Macro(InlineMacro::Link(l)) => lemma_all_inlines(role, l.text@),
                InlineNode::Macro(InlineMacro::Url(l)) => lemma_all_inlines(role, l.text@),
                InlineNode::Macro(InlineMacro::Mailto(l)) => lemma_all_inlines(role, l.text@),
                InlineNode::Macro(InlineMacro::Image(i)) => lemma_all_inlines(role, i.title@),
                InlineNode::Macro(InlineMacro::CrossReference(x)) => lemma_all_inlines(
                    role,
                    x.text@,
                ),
                _ => match as_span(n) {
                    Some(s) => lemma_all_inlines(role, s.content@),
                    None => {},
                },
            }
            assert(collected(role, node) =~= said_by(role, node) + all_collected(
                role,
                parts(node),
            ));
        },
    }
}

proof fn lemma_block(role: Role, block: Block<'_>)
    ensures
        collected(role, Node::Block(block)) == said_by(role, Node::Block(block)) + all_collected(
            role,
            block_parts(block),
        ),
{
    match block {
        Block::Section(s) => {
            lemma_collected_concat(role, inlines(s.title@), blocks(s.content@));
            lemma_all_inlines(role, s.title@);
            lemma_all_blocks(role, s.content@);
        },
        Block::Paragraph(p) => {
            lemma_collected_concat(role, inlines(p.title@), inlines(p.content@));
            lemma_all_inlines(role, p.title@);
            lemma_all_inlines(role, p.content@);
        },
        Block::DelimitedBlock(d) => {
            lemma_collected_concat(role, inlines(d.title@), delimited_nodes(d.inner));
            lemma_all_inlines(role, d.title@);
            lemma_delimited(role, d.inner);
        },
        Block::UnorderedList(l) => {
            lemma_collected_concat(role, inlines(l.title@), items_nodes(l.items@));
            lemma_all_inlines(role, l.title@);
            lemma_items(role, l.items@, l.items@.len());
            assert(l.items@.take(l.items@.len() as int) =~= l.items@);
        },
        Block::OrderedList(l) => {
            lemma_collected_concat(role, inlines(l.title@), items_nodes(l.items@));
            lemma_all_inlines(role, l.title@);
            lemma_items(role, l.items@, l.items@.len());
            assert(l.items@.take(l.items@.len() as int) =~= l.items@);
        },
        Block::DescriptionList(l) => {
            lemma_collected_concat(role, inlines(l.title@), terms(l.items@));
            lemma_all_inlines(role, l.title@);
            lemma_terms(role, l.items@, l.items@.len());
            assert(l.items@.take(l.items@.len() as int) =~= l.items@);
        },
        Block::Admonition(a) => {
            lemma_collected_concat(role, inlines(a.title@), blocks(a.blocks@));
            lemma_all_inlines(role, a.title@);
            lemma_all_blocks(role, a.blocks@);
        },
        Block::Image(m) => lemma_all_inlines(role, m.title@),
        Block::Audio(m) => lemma_all_inlines(role, m.title@),
        Block::Video(m) => lemma_all_inlines(role, m.title@),
        Block::PageBreak(m) => lemma_all_inlines(role, m.title@),
        Block::DiscreteHeader(m) => lemma_all_inlines(role, m.title@),
        Block::CalloutList(l) => {
            lemma_collected_concat(role, inlines(l.title@), callouts_nodes(l.items@));
            lemma_all_inlines(role, l.title@);
            lemma_callouts(role, l.items@, l.items@.len());
            assert(l.items@.take(l.items@.len() as int) =~= l.items@);
        },
        Block::ThematicBreak(t) => {
            lemma_all_inlines(role, t.title@);
            lemma_all_anchors(t.anchors@);
        },
        Block::TableOfContents(_) => {},
        Block::Other(_) => {},
    }
    assert(collected(role, Node::Block(block)) =~= said_by(role, Node::Block(block))
        + all_collected(role, block_parts(block)));
}

/// What a node says is collected from every node that it stands in, however deep
/// down it is.
pub proof fn law_nothing_is_passed_over(role: Role, path: Seq<Node<'_>>, m: (Seq<char>, Location))
    requires
        is_path(path),
        said_by(role, path.last()).contains(m),
    ensures
        collected(role, path[0]).contains(m),
    decreases path.len(),
{
    let root = path[0];
    law_collected_from_a_node(role, root);
    let own = said_by(role, root);
    let rest = all_collected(role, parts(root));
    if path.len() == 1 {
        let j = choose|j: int| 0 <= j < own.len() && own[j] == m;
        assert((own + rest)[j] == m);
    } else {
        let below = path.drop_first();
        assert forall|k: int| 0 < k < below.len() implies parts(below[k - 1]).contains(
            #[trigger] below[k],
        ) by {
            assert(below[k] == path[k + 1]);
            assert(below[k - 1] == path[k]);
        }
        law_nothing_is_passed_over(role, below, m);
        assert(parts(path[1 - 1]).contains(path[1]));
        let i = choose|i: int| 0 <= i < parts(root).len() && parts(root)[i] == path[1];
        lemma_collected_part(role, parts(root), i, m);
        let j = choose|j: int| 0 <= j < rest.len() && rest[j] == m;
        assert((own + rest)[own.len() + j] == m);
    }
}

/// Nothing else is collected from a node: it says it itself, or it is collected from
/// a node that stands in it.
pub proof fn law_nothing_is_made_up(role: Role, node: Node<'_>, m: (Seq<char>, Location))
    requires
        collected(role, node).contains(m),
    ensures
        said_by(role, node).contains(m) || exists|k: int|
            0 <= k < parts(node).len() && collected(role, #[trigger] parts(node)[k]).contains(m),
{
    law_collected_from_a_node(role, node);
    let own = said_by(role, node);
    let rest = all_collected(role, parts(node));
    let j = choose|j: int| 0 <= j < (own + rest).len() && (own + rest)[j] == m;
    if j < own.len() {
        assert(own[j] == m);
    } else {
        assert(rest[j - own.len()] == m);
        lemma_collected_whence(role, parts(node), m);
    }
}

/// What is collected from a document is what is collected from its blocks, one
/// behind the other.
pub proof fn law_collected_from_a_document(nodes: Seq<Block<'_>>)
    ensures
        blocks_decls(nodes, nodes.len()) == all_collected(Role::Declares, blocks(nodes)),
        blocks_uses(nodes, nodes.len()) == all_collected(Role::Refers, blocks(nodes)),
{
    lemma_all_blocks(Role::Declares, nodes);
    lemma_all_blocks(Role::Refers, nodes);
}

/// An id that a block declares by its anchors is declared
/// once, at the first of the anchors that have it; the id of the block itself is
/// declared behind them, at its own place.
pub proof fn law_anchors_of_a_block(m: BlockMetadata<'_>)
    ensures
        forall|k: int|
            0 <= k < m.anchors@.len() ==> declares(
                metadata_decls(m),
                (#[trigger] m.anchors@[k]).id@,
            ),
        m.id matches Some(a) ==> metadata_decls(m).len() > 0 && metadata_decls(m).last() == (
            a.id@,
            a.location,
        ),
        forall|i: int, j: int|
            0 <= i < j < metadata_decls(m).len() ==> (#[trigger] metadata_decls(m)[i]).0 != (
            #[trigger] metadata_decls(m)[j]).0,
        forall|j: int|
            0 <= j < metadata_decls(m).len() ==> (m.id matches Some(a) && #[trigger] metadata_decls(
                m,
            )[j] == (a.id@, a.location)) || stands_first(m.anchors@, metadata_decls(m)[j]),
{
    let d = own_decls(m.anchors@, m.anchors@.len(), m.id, None);
    let all = metadata_decls(m);
    lemma_own(m.anchors@, m.anchors@.len(), m.id, None);
    assert forall|k: int| 0 <= k < m.anchors@.len() implies declares(
        all,
        (#[trigger] m.anchors@[k]).id@,
    ) by {
        let id = m.anchors@[k].id@;
        if declares(d, id) {
            let j = choose|j: int| 0 <= j < d.len() && (#[trigger] d[j]).0 == id;
            assert(all[j].0 == id);
        } else {
            assert(all[all.len() - 1].0 == id);
        }
    }
    assert forall|j: int| 0 <= j < all.len() implies (m.id matches Some(a) && #[trigger] all[j] == (
        a.id@,
        a.location,
    )) || stands_first(m.anchors@, all[j]) by {
        if j < d.len() {
            assert(all[j] == d[j]);
        }
    }
    assert forall|i: int, j: int| 0 <= i < j < all.len() implies (#[trigger] all[i]).0 != (
    #[trigger] all[j]).0 by {
        assert(all[i] == d[i]);
        if j < d.len() {
            assert(all[j] == d[j]);
        }
    }
}

/// Where the anchors of a block all have ids of their own, they are declared as they
/// are written, one behind the other.
pub proof fn law_anchors_in_their_order(m: BlockMetadata<'_>)
    requires
        forall|i: int, j: int|
            0 <= i < j < m.anchors@.len() ==> (#[trigger] m.anchors@[i]).id@ != (
            #[trigger] m.anchors@[j]).id@,
        m.id matches Some(a) ==> forall|k: int|
            0 <= k < m.anchors@.len() ==> (#[trigger] m.anchors@[k]).id@ != a.id@,
    ensures
        metadata_decls(m) == match m.id {
            Some(a) => anchor_mentions(m.anchors@).push((a.id@, a.location)),
            None => anchor_mentions(m.anchors@),
        },
{
    lemma_own_distinct(m.anchors@, m.anchors@.len(), m.id);
    assert(anchor_mentions(m.anchors@).take(m.anchors@.len() as int) =~= anchor_mentions(
        m.anchors@,
    ));
}

/// A section declares its id at its heading: from the start of the section to the end
/// of the title. Each of its anchors is declared too, but for one with the id that
/// the section has already, and none twice.
pub proof fn law_declarations_of_a_section(s: Section<'_>)
    ensures
        section_decls(s).len() > 0,
        section_decls(s).last().0 == s.id@,
        section_decls(s).last().1.start == s.location.start,
        section_decls(s).last().1.absolute_start == s.location.absolute_start,
        s.title@.len() == 0 ==> section_decls(s).last().1 == s.location,
        s.title@.len() > 0 ==> section_decls(s).last().1.end == inline_location(
            s.title@[s.title@.len() - 1],
        ).end && section_decls(s).last().1.absolute_end == inline_location(
            s.title@[s.title@.len() - 1],
        ).absolute_end,
        forall|k: int|
            0 <= k < s.metadata.anchors@.len() ==> declares(
                section_decls(s),
                (#[trigger] s.metadata.anchors@[k]).id@,
            ) || (s.metadata.id matches Some(a) && a.id@ == s.metadata.anchors@[k].id@),
        forall|i: int, j: int|
            0 <= i < j < section_decls(s).len() ==> (#[trigger] section_decls(s)[i]).0 != (
            #[trigger] section_decls(s)[j]).0,
        forall|j: int|
            0 <= j < section_decls(s).len() - 1 ==> stands_first(
                s.metadata.anchors@,
                #[trigger] section_decls(s)[j],
            ),
{
    let anchors = s.metadata.anchors@;
    let d = own_decls(anchors, anchors.len(), s.metadata.id, Some(s.id@));
    let all = section_decls(s);
    lemma_own(anchors, anchors.len(), s.metadata.id, Some(s.id@));
    assert forall|k: int| 0 <= k < anchors.len() implies declares(
        all,
        (#[trigger] anchors[k]).id@,
    ) || (s.metadata.id matches Some(a) && a.id@ == anchors[k].id@) by {
        let id = anchors[k].id@;
        if declares(d, id) {
            let j = choose|j: int| 0 <= j < d.len() && (#[trigger] d[j]).0 == id;
            assert(all[j].0 == id);
        } else {
            assert(all[all.len() - 1].0 == s.id@);
        }
    }
    assert forall|i: int, j: int| 0 <= i < j < all.len() implies (#[trigger] all[i]).0 != (
    #[trigger] all[j]).0 by {
        assert(all[i] == d[i]);
        if j < d.len() {
            assert(all[j] == d[j]);
        }
    }
    assert forall|j: int| 0 <= j < all.len() - 1 implies stands_first(
        anchors,
        #[trigger] all[j],
    ) by {
        assert(all[j] == d[j]);
    }
}

/// A target with a fragment, a path, a URL or white space in it is never reported.
pub proof fn law_targets_elsewhere(target: Seq<char>, k: int)
    requires
        0 <= k < target.len(),
        target[k] == '#' || target[k] == '/' || target[k] == '\\' || target[k] == ':' || is_ws(
            target[k],
        ),
    ensures
        !is_local_id(target),
{
    assert(target.contains(target[k]));
}

/// A file name that ends in `.adoc`, in either case, is never reported.
pub proof fn law_document_names(name: Seq<char>, a: char, d: char, o: char, c: char)
    requires
        name.len() > 0,
        a == 'a' || a == 'A',
        d == 'd' || d == 'D',
        o == 'o' || o == 'O',
        c == 'c' || c == 'C',
    ensures
        !is_local_id(name + seq!['.', a, d, o, c]),
{
    let target = name + seq!['.', a, d, o, c];
    let dot = target.len() - 4 - 1;
    reveal_strlit("adoc");
    let ext = "adoc"@;
    assert forall|k: int| 0 <= k < ext.len() implies is_letter(
        #[trigger] target[dot + 1 + k],
        ext[k],
    ) by {
        assert(target[dot + 1] == a);
        assert(target[dot + 2] == d);
        assert(target[dot + 3] == o);
        assert(target[dot + 4] == c);
    }
    assert(target[dot] == '.');
}

/// A file name that ends in `.asciidoc` is never reported.
pub proof fn law_long_document_names(name: Seq<char>)
    requires
        name.len() > 0,
    ensures
        !is_local_id(name + seq!['.', 'a', 's', 'c', 'i', 'i', 'd', 'o', 'c']),
        !is_local_id(name + seq!['.', 'A', 'S', 'C', 'I', 'I', 'D', 'O', 'C']),
{
    let low = name + seq!['.', 'a', 's', 'c', 'i', 'i', 'd', 'o', 'c'];
    let high = name + seq!['.', 'A', 'S', 'C', 'I', 'I', 'D', 'O', 'C'];
    let dot = low.len() - 8 - 1;
    reveal_strlit("asciidoc");
    let ext = "asciidoc"@;
    assert forall|k: int| 0 <= k < ext.len() implies is_letter(
        #[trigger] low[dot + 1 + k],
        ext[k],
    ) by {
        assert(low[dot + 1 + k] == seq!['.', 'a', 's', 'c', 'i', 'i', 'd', 'o', 'c'][1 + k]);
    }
    assert forall|k: int| 0 <= k < ext.len() implies is_letter(
        #[trigger] high[dot + 1 + k],
        ext[k],
    ) by {
        assert(high[dot + 1 + k] == seq!['.', 'A', 'S', 'C', 'I', 'I', 'D', 'O', 'C'][1 + k]);
    }
    assert(low[dot] == '.');
    assert(high[dot] == '.');
}

/// Every other target is one of this document: one without a dot, and with none of
/// the characters of a path, a URL, a fragment or a title.
pub proof fn law_targets_here(target: Seq<char>)
    requires
        target.len() > 0,
        forall|k: int|
            0 <= k < target.len() ==> {
                let c = #[trigger] target[k];
                c != '.' && c != '#' && c != '/' && c != '\\' && c != ':' && !is_ws(c)
            },
    ensures
        is_local_id(target),
{
    reveal_strlit("adoc");
    reveal_strlit("asciidoc");
}

/// References are looked at one by one, in their order: of a run of them and another
/// behind it come the warnings of the one and behind them those of the other.
pub proof fn law_references_one_by_one(
    decls: Seq<(Seq<char>, Location)>,
    a: Seq<(Seq<char>, Location)>,
    b: Seq<(Seq<char>, Location)>,
)
    ensures
        unresolved_warnings(decls, a + b) == unresolved_warnings(decls, a) + unresolved_warnings(
            decls,
            b,
        ),
    decreases b.len(),
{
    if b.len() == 0 {
        assert(a + b =~= a);
        assert(unresolved_warnings(decls, a) + Seq::<WarningV>::empty() =~= unresolved_warnings(
            decls,
            a,
        ));
    } else {
        law_references_one_by_one(decls, a, b.drop_last());
        assert((a + b).drop_last() =~= a + b.drop_last());
        assert(unresolved_warnings(decls, a + b) =~= unresolved_warnings(decls, a)
            + unresolved_warnings(decls, b));
    }
}

/// A reference to an id of this document that nothing declares has one warning, which
/// names the id and the place of the reference; every other reference has none.
pub proof fn law_warning_of_a_reference(
    decls: Seq<(Seq<char>, Location)>,
    target: Seq<char>,
    location: Location,
)
    ensures
        unresolved_warnings(decls, seq![(target, location)]) == if is_local_id(target) && !declares(
            decls,
            target,
        ) {
            seq![
                WarningV {
                    kind: "UnresolvedCrossReference"@,
                    message: "unresolved cross-reference: no anchor with id '"@ + target + "'"@,
                    line: Some(location.start.line as usize),
                    column: Some(location.start.column as usize),
                },
            ]
        } else {
            Seq::empty()
        },
{
    law_declared(decls, target);
    let one = seq![(target, location)];
    assert(one.drop_last() =~= Seq::empty());
    assert(unresolved_warnings(decls, one.drop_last()) =~= Seq::<WarningV>::empty());
    assert(unresolved_warnings(decls, one) =~= if is_local_id(target) && !declares(
        decls,
        target,
    ) {
        seq![unresolved_warning(target, location)]
    } else {
        Seq::empty()
    });
}

/// A declaration behind others has one warning, which names the id and the place of
/// the declaration, where the first of the others that is of the same id stands in
/// another place; else it has none. The warnings of the others stay as they are.
pub proof fn law_warning_of_a_declaration(
    before: Seq<(Seq<char>, Location)>,
    id: Seq<char>,
    location: Location,
)
    ensures
        duplicate_warnings(before.push((id, location))) == if exists|i: int|
            is_first(before, i, id) && !((#[trigger] before[i]).1.absolute_start
                == location.absolute_start && before[i].1.absolute_end == location.absolute_end) {
            duplicate_warnings(before).push(
                WarningV {
                    kind: "DuplicateAnchorId"@,
                    message: "duplicate anchor id: '"@ + id + "' is already defined"@,
                    line: Some(location.start.line as usize),
                    column: Some(location.start.column as usize),
                },
            )
        } else {
            duplicate_warnings(before)
        },
        duplicate_warnings(Seq::empty()) == Seq::<WarningV>::empty(),
{
    assert(before.push((id, location)).drop_last() =~= before);
    lemma_is_first(before, id);
    match first_declared(before, id) {
        Some(first) => {
            let i = choose|i: int| is_first(before, i, id) && (#[trigger] before[i]).1 == first;
            assert(is_first(before, i, id) && before[i].1 == first);
            assert forall|j: int| is_first(before, j, id) implies (#[trigger] before[j]).1
                == first by {
                if j < i {
                    assert(before[j].0 == id);
                } else if i < j {
                    assert(before[i].0 == id);
                }
            }
        },
        None => {},
    }
}

/// Every reference of a document to an id that nothing in it declares is reported,
/// wherever it stands.
pub proof fn law_lost_references_are_reported(
    nodes: Seq<Block<'_>>,
    path: Seq<Node<'_>>,
    target: Seq<char>,
    location: Location,
)
    requires
        is_path(path),
        blocks(nodes).contains(path[0]),
        path.last() matches Node::Inline(InlineNode::Macro(InlineMacro::CrossReference(x)))
            && x.target@ == target && x.location == location,
        is_local_id(target),
        !declares(blocks_decls(nodes, nodes.len()), target),
    ensures
        reference_warnings(nodes).contains(
            (WarningV {
                kind: "UnresolvedCrossReference"@,
                message: "unresolved cross-reference: no anchor with id '"@ + target + "'"@,
                line: Some(location.start.line as usize),
                column: Some(location.start.column as usize),
            }),
        ),
{
    let decls = blocks_decls(nodes, nodes.len());
    let uses = blocks_uses(nodes, nodes.len());
    let said = said_by(Role::Refers, path.last());
    assert(said[0] == (target, location));
    law_nothing_is_passed_over(Role::Refers, path, (target, location));
    let b = choose|b: int| 0 <= b < blocks(nodes).len() && blocks(nodes)[b] == path[0];
    lemma_collected_part(Role::Refers, blocks(nodes), b, (target, location));
    law_collected_from_a_document(nodes);
    let k = choose|k: int| 0 <= k < uses.len() && uses[k] == (target, location);
    law_warning_of_a_reference(decls, target, location);
    law_references_one_by_one(decls, uses.take(k), seq![uses[k]]);
    law_references_one_by_one(decls, uses.take(k) + seq![uses[k]], uses.skip(k + 1));
    assert(uses.take(k) + seq![uses[k]] + uses.skip(k + 1) =~= uses);
    let warnings = unresolved_warnings(decls, uses);
    let at = unresolved_warnings(decls, uses.take(k)).len() as int;
    assert(warnings[at] == unresolved_warnings(decls, seq![uses[k]])[0]);
    assert(reference_warnings(nodes)[duplicate_warnings(decls).len() + at] == warnings[at]);
}

/// An id that a node of a document declares, wherever it stands, is declared in the
/// document: no reference to it is reported.
pub proof fn law_declared_anywhere(
    nodes: Seq<Block<'_>>,
    path: Seq<Node<'_>>,
    id: Seq<char>,
    place: Location,
    location: Location,
)
    requires
        is_path(path),
        blocks(nodes).contains(path[0]),
        declared_by(path.last()).contains((id, place)),
    ensures
        declares(blocks_decls(nodes, nodes.len()), id),
        unresolved_warnings(blocks_decls(nodes, nodes.len()), seq![(id, location)]).len() == 0,
{
    let decls = blocks_decls(nodes, nodes.len());
    law_nothing_is_passed_over(Role::Declares, path, (id, place));
    let b = choose|b: int| 0 <= b < blocks(nodes).len() && blocks(nodes)[b] == path[0];
    lemma_collected_part(Role::Declares, blocks(nodes), b, (id, place));
    law_collected_from_a_document(nodes);
    let j = choose|j: int| 0 <= j < decls.len() && decls[j] == (id, place);
    assert(decls[j].0 == id);
    law_warning_of_a_reference(decls, id, location);
}

/// The duplicate anchors of a document are reported first, and behind them the
/// references that lead nowhere.
pub proof fn law_order_of_the_warnings(nodes: Seq<Block<'_>>)
    ensures
        exists|n: int|
            0 <= n <= reference_warnings(nodes).len() && #[trigger] reference_warnings(nodes).take(
                n,
            ) == duplicate_warnings(blocks_decls(nodes, nodes.len()))
                && reference_warnings(nodes).skip(n) == unresolved_warnings(
                blocks_decls(nodes, nodes.len()),
                blocks_uses(nodes, nodes.len()),
            ),
{
    let decls = blocks_decls(nodes, nodes.len());
    let a = duplicate_warnings(decls);
    let b = unresolved_warnings(decls, blocks_uses(nodes, nodes.len()));
    let n = a.len() as int;
    assert(reference_warnings(nodes).take(n) =~= a);
    assert(reference_warnings(nodes).skip(n) =~= b);
}

} // verus!

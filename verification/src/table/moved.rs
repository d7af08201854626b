//! What it means that the blocks of a cell are moved: every node of the tree is, and with
//! it every place that it holds.

use crate::model::document::{
    inline_location, Block, CalloutListItem, DelimitedBlockType, DescriptionListItem, InlineMacro,
    InlineNode, ListItem, TableColumn, TableRow,
};
use crate::model::Location;
use crate::table::escape::{marks_below, marks_in_line, moved_location, Mark};
use crate::table::relocate::{
    admonition_moved, anchor_moved, anchors_moved, block_metadata_moved, block_moved,
    blocks_moved, callout_list_item_moved, callout_list_moved, callouts_moved, columns_moved,
    cross_reference_moved, delimited_block_moved, delimited_block_type_moved,
    description_list_item_moved, description_list_moved, footnote_moved, inline_macro_moved,
    inline_node_moved, inlines_moved, link_moved, list_item_moved, list_items_moved, list_moved,
    media_moved, optional_anchor_moved, optional_table_row_moved, paragraph_moved, rows_moved,
    section_moved, span_moved, table_column_moved, table_moved, table_row_moved, terms_moved,
    text_moved, thematic_break_moved,
};
use crate::tree::{
    as_span, block_parts, blocks, callouts_nodes, cells_nodes, delimited_nodes, edge_nodes,
    inline_parts, inlines, items_nodes, metadata_of, parts, rows_nodes, terms, Node,
};
use vstd::prelude::*;

verus! {

/// Whether a node is another one moved.
pub open spec fn node_moved(a: Node<'_>, b: Node<'_>, marks: Seq<Mark>) -> bool {
    match (a, b) {
        (Node::Block(x), Node::Block(y)) => block_moved(x, y, marks),
        (Node::Term(x), Node::Term(y)) => description_list_item_moved(x, y, marks),
        (Node::Inline(x), Node::Inline(y)) => inline_node_moved(x, y, marks),
        _ => false,
    }
}

/// Whether nodes are others moved, one by one.
pub open spec fn nodes_moved(a: Seq<Node<'_>>, b: Seq<Node<'_>>, marks: Seq<Mark>) -> bool {
    &&& a.len() == b.len()
    &&& forall|k: int| 0 <= k < a.len() ==> node_moved(#[trigger] a[k], b[k], marks)
}

/// The place of a node.
pub open spec fn node_place(node: Node<'_>) -> Location {
    match node {
        Node::Term(t) => t.location,
        Node::Inline(n) => inline_location(n),
        Node::Block(b) => match b {
            Block::Section(s) => s.location,
            Block::Paragraph(p) => p.location,
            Block::DelimitedBlock(d) => d.location,
            Block::UnorderedList(l) => l.location,
            Block::OrderedList(l) => l.location,
            Block::DescriptionList(l) => l.location,
            Block::Admonition(a) => a.location,
            Block::Image(m) => m.location,
            Block::Audio(m) => m.location,
            Block::Video(m) => m.location,
            Block::PageBreak(m) => m.location,
            Block::DiscreteHeader(m) => m.location,
            Block::CalloutList(l) => l.location,
            Block::ThematicBreak(t) => t.location,
            Block::TableOfContents(m) => m.location,
            Block::Other(location) => location,
        },
    }
}

// ---------------------------------------------------------------------------
// Facts about sequences of nodes.
// ---------------------------------------------------------------------------

proof fn lemma_concat(
    a: Seq<Node<'_>>,
    b: Seq<Node<'_>>,
    c: Seq<Node<'_>>,
    d: Seq<Node<'_>>,
    marks: Seq<Mark>,
)
    requires
        nodes_moved(a, b, marks),
        nodes_moved(c, d, marks),
    ensures
        nodes_moved(a + c, b + d, marks),
{
    let x = a + c;
    let y = b + d;
    assert forall|k: int| 0 <= k < x.len() implies node_moved(#[trigger] x[k], y[k], marks) by {
        if k < a.len() {
            assert(x[k] == a[k] && y[k] == b[k]);
        } else {
            assert(x[k] == c[k - a.len()] && y[k] == d[k - a.len()]);
        }
    }
}

proof fn lemma_inlines(a: Seq<InlineNode<'_>>, b: Seq<InlineNode<'_>>, marks: Seq<Mark>)
    requires
        inlines_moved(a, b, marks),
    ensures
        nodes_moved(inlines(a), inlines(b), marks),
{
    let x = inlines(a);
    assert forall|k: int| 0 <= k < x.len() implies node_moved(
        #[trigger] x[k],
        inlines(b)[k],
        marks,
    ) by {
        assert(inline_node_moved(a[k], b[k], marks));
    }
}

proof fn lemma_blocks(a: Seq<Block<'_>>, b: Seq<Block<'_>>, marks: Seq<Mark>)
    requires
        blocks_moved(a, b, marks),
    ensures
        nodes_moved(blocks(a), blocks(b), marks),
{
    let x = blocks(a);
    assert forall|k: int| 0 <= k < x.len() implies node_moved(
        #[trigger] x[k],
        blocks(b)[k],
        marks,
    ) by {
        assert(block_moved(a[k], b[k], marks));
    }
}

proof fn lemma_terms(
    a: Seq<DescriptionListItem<'_>>,
    b: Seq<DescriptionListItem<'_>>,
    marks: Seq<Mark>,
)
    requires
        terms_moved(a, b, marks),
    ensures
        nodes_moved(terms(a), terms(b), marks),
{
    let x = terms(a);
    assert forall|k: int| 0 <= k < x.len() implies node_moved(
        #[trigger] x[k],
        terms(b)[k],
        marks,
    ) by {
        assert(description_list_item_moved(a[k], b[k], marks));
    }
}

proof fn lemma_items(a: Seq<ListItem<'_>>, b: Seq<ListItem<'_>>, marks: Seq<Mark>)
    requires
        a.len() == b.len(),
        forall|k: int| 0 <= k < a.len() ==> list_item_moved(#[trigger] a[k], b[k], marks),
    ensures
        nodes_moved(items_nodes(a), items_nodes(b), marks),
    decreases a.len(),
{
    if a.len() > 0 {
        let n = a.len() - 1;
        assert(list_item_moved(a[n], b[n], marks));
        assert forall|k: int| 0 <= k < n implies list_item_moved(
            #[trigger] a.drop_last()[k],
            b.drop_last()[k],
            marks,
        ) by {
            assert(list_item_moved(a[k], b[k], marks));
        }
        lemma_items(a.drop_last(), b.drop_last(), marks);
        lemma_inlines(a[n].principal@, b[n].principal@, marks);
        lemma_blocks(a[n].blocks@, b[n].blocks@, marks);
        let x = items_nodes(a.drop_last());
        let y = items_nodes(b.drop_last());
        lemma_concat(x, y, inlines(a[n].principal@), inlines(b[n].principal@), marks);
        lemma_concat(
            x + inlines(a[n].principal@),
            y + inlines(b[n].principal@),
            blocks(a[n].blocks@),
            blocks(b[n].blocks@),
            marks,
        );
    }
}

proof fn lemma_callouts(
    a: Seq<CalloutListItem<'_>>,
    b: Seq<CalloutListItem<'_>>,
    marks: Seq<Mark>,
)
    requires
        a.len() == b.len(),
        forall|k: int| 0 <= k < a.len() ==> callout_list_item_moved(#[trigger] a[k], b[k], marks),
    ensures
        nodes_moved(callouts_nodes(a), callouts_nodes(b), marks),
    decreases a.len(),
{
    if a.len() > 0 {
        let n = a.len() - 1;
        assert(callout_list_item_moved(a[n], b[n], marks));
        assert forall|k: int| 0 <= k < n implies callout_list_item_moved(
            #[trigger] a.drop_last()[k],
            b.drop_last()[k],
            marks,
        ) by {
            assert(callout_list_item_moved(a[k], b[k], marks));
        }
        lemma_callouts(a.drop_last(), b.drop_last(), marks);
        lemma_inlines(a[n].principal@, b[n].principal@, marks);
        lemma_concat(
            callouts_nodes(a.drop_last()),
            callouts_nodes(b.drop_last()),
            inlines(a[n].principal@),
            inlines(b[n].principal@),
            marks,
        );
    }
}

proof fn lemma_cells(a: Seq<TableColumn<'_>>, b: Seq<TableColumn<'_>>, marks: Seq<Mark>)
    requires
        a.len() == b.len(),
        forall|k: int| 0 <= k < a.len() ==> table_column_moved(#[trigger] a[k], b[k], marks),
    ensures
        nodes_moved(cells_nodes(a), cells_nodes(b), marks),
    decreases a.len(),
{
    if a.len() > 0 {
        let n = a.len() - 1;
        assert(table_column_moved(a[n], b[n], marks));
        assert forall|k: int| 0 <= k < n implies table_column_moved(
            #[trigger] a.drop_last()[k],
            b.drop_last()[k],
            marks,
        ) by {
            assert(table_column_moved(a[k], b[k], marks));
        }
        lemma_cells(a.drop_last(), b.drop_last(), marks);
        lemma_blocks(a[n].content@, b[n].content@, marks);
        lemma_concat(
            cells_nodes(a.drop_last()),
            cells_nodes(b.drop_last()),
            blocks(a[n].content@),
            blocks(b[n].content@),
            marks,
        );
    }
}

proof fn lemma_row(a: TableRow<'_>, b: TableRow<'_>, marks: Seq<Mark>)
    requires
        table_row_moved(a, b, marks),
    ensures
        nodes_moved(cells_nodes(a.columns@), cells_nodes(b.columns@), marks),
{
    assert(columns_moved(a.columns@, b.columns@, marks));
    lemma_cells(a.columns@, b.columns@, marks);
}

proof fn lemma_rows(a: Seq<TableRow<'_>>, b: Seq<TableRow<'_>>, marks: Seq<Mark>)
    requires
        a.len() == b.len(),
        forall|k: int| 0 <= k < a.len() ==> table_row_moved(#[trigger] a[k], b[k], marks),
    ensures
        nodes_moved(rows_nodes(a), rows_nodes(b), marks),
    decreases a.len(),
{
    if a.len() > 0 {
        let n = a.len() - 1;
        assert(table_row_moved(a[n], b[n], marks));
        assert forall|k: int| 0 <= k < n implies table_row_moved(
            #[trigger] a.drop_last()[k],
            b.drop_last()[k],
            marks,
        ) by {
            assert(table_row_moved(a[k], b[k], marks));
        }
        lemma_rows(a.drop_last(), b.drop_last(), marks);
        lemma_row(a[n], b[n], marks);
        lemma_concat(
            rows_nodes(a.drop_last()),
            rows_nodes(b.drop_last()),
            cells_nodes(a[n].columns@),
            cells_nodes(b[n].columns@),
            marks,
        );
    }
}

proof fn lemma_edge(a: Option<TableRow<'_>>, b: Option<TableRow<'_>>, marks: Seq<Mark>)
    requires
        optional_table_row_moved(a, b, marks),
    ensures
        nodes_moved(edge_nodes(a), edge_nodes(b), marks),
{
    match (a, b) {
        (Some(x), Some(y)) => lemma_row(x, y, marks),
        _ => {},
    }
}

proof fn lemma_delimited(
    a: DelimitedBlockType<'_>,
    b: DelimitedBlockType<'_>,
    marks: Seq<Mark>,
)
    requires
        delimited_block_type_moved(a, b, marks),
    ensures
        nodes_moved(delimited_nodes(a), delimited_nodes(b), marks),
{
    match (a, b) {
        (DelimitedBlockType::DelimitedExample(x), DelimitedBlockType::DelimitedExample(y)) => {
            lemma_blocks(x@, y@, marks)
        },
        (DelimitedBlockType::DelimitedOpen(x), DelimitedBlockType::DelimitedOpen(y)) => {
            lemma_blocks(x@, y@, marks)
        },
        (DelimitedBlockType::DelimitedSidebar(x), DelimitedBlockType::DelimitedSidebar(y)) => {
            lemma_blocks(x@, y@, marks)
        },
        (DelimitedBlockType::DelimitedQuote(x), DelimitedBlockType::DelimitedQuote(y)) => {
            lemma_blocks(x@, y@, marks)
        },
        (DelimitedBlockType::DelimitedListing(x), DelimitedBlockType::DelimitedListing(y)) => {
            lemma_inlines(x@, y@, marks)
        },
        (DelimitedBlockType::DelimitedLiteral(x), DelimitedBlockType::DelimitedLiteral(y)) => {
            lemma_inlines(x@, y@, marks)
        },
        (DelimitedBlockType::DelimitedPass(x), DelimitedBlockType::DelimitedPass(y)) => {
            lemma_inlines(x@, y@, marks)
        },
        (DelimitedBlockType::DelimitedVerse(x), DelimitedBlockType::DelimitedVerse(y)) => {
            lemma_inlines(x@, y@, marks)
        },
        (DelimitedBlockType::DelimitedComment(x), DelimitedBlockType::DelimitedComment(y)) => {
            lemma_inlines(x@, y@, marks)
        },
        (DelimitedBlockType::DelimitedTable(x), DelimitedBlockType::DelimitedTable(y)) => {
            assert(table_moved(x, y, marks));
            lemma_edge(x.header, y.header, marks);
            assert(rows_moved(x.rows@, y.rows@, marks));
            lemma_rows(x.rows@, y.rows@, marks);
            lemma_edge(x.footer, y.footer, marks);
            lemma_concat(
                edge_nodes(x.header),
                edge_nodes(y.header),
                rows_nodes(x.rows@),
                rows_nodes(y.rows@),
                marks,
            );
            lemma_concat(
                edge_nodes(x.header) + rows_nodes(x.rows@),
                edge_nodes(y.header) + rows_nodes(y.rows@),
                edge_nodes(x.footer),
                edge_nodes(y.footer),
                marks,
            );
        },
        _ => {},
    }
}

proof fn lemma_inline_node(a: InlineNode<'_>, b: InlineNode<'_>, marks: Seq<Mark>)
    requires
        inline_node_moved(a, b, marks),
    ensures
        inline_location(b) == moved_location(inline_location(a), marks),
        nodes_moved(inline_parts(a), inline_parts(b), marks),
{
    match (a, b) {
        (InlineNode::Macro(m), InlineNode::Macro(n)) => {
            assert(inline_macro_moved(m, n, marks));
            match (m, n) {
                (InlineMacro::Footnote(x), InlineMacro::Footnote(y)) => {
                    assert(footnote_moved(x, y, marks));
                    lemma_inlines(x.content@, y.content@, marks);
                },
                (InlineMacro::Link(x), InlineMacro::Link(y)) => {
                    assert(link_moved(x, y, marks));
                    lemma_inlines(x.text@, y.text@, marks);
                },
                (InlineMacro::Url(x), InlineMacro::Url(y)) => {
                    assert(link_moved(x, y, marks));
                    lemma_inlines(x.text@, y.text@, marks);
                },
                (InlineMacro::Mailto(x), InlineMacro::Mailto(y)) => {
                    assert(link_moved(x, y, marks));
                    lemma_inlines(x.text@, y.text@, marks);
                },
                (InlineMacro::Image(x), InlineMacro::Image(y)) => {
                    assert(media_moved(x, y, marks));
                    lemma_inlines(x.title@, y.title@, marks);
                },
                (InlineMacro::CrossReference(x), InlineMacro::CrossReference(y)) => {
                    assert(cross_reference_moved(x, y, marks));
                    lemma_inlines(x.text@, y.text@, marks);
                },
                _ => {},
            }
        },
        (InlineNode::PlainText(x), InlineNode::PlainText(y)) => {
            assert(text_moved(x, y, marks));
        },
        (InlineNode::RawText(x), InlineNode::RawText(y)) => {
            assert(text_moved(x, y, marks));
        },
        (InlineNode::VerbatimText(x), InlineNode::VerbatimText(y)) => {
            assert(text_moved(x, y, marks));
        },
        (InlineNode::InlineAnchor(x), InlineNode::InlineAnchor(y)) => {
            assert(anchor_moved(x, y, marks));
        },
        (InlineNode::Other(_), InlineNode::Other(_)) => {},
        _ => {
            let x = as_span(a)->Some_0;
            let y = as_span(b)->Some_0;
            assert(span_moved(x, y, marks));
            lemma_inlines(x.content@, y.content@, marks);
        },
    }
}

// ---------------------------------------------------------------------------
// Laws.
// ---------------------------------------------------------------------------

/// Where a node is moved, its place is, and so is every node that stands in it, each in
/// its place among the others: nothing is left out, and nothing is added.
pub proof fn law_every_node_is_moved(a: Node<'_>, b: Node<'_>, marks: Seq<Mark>)
    requires
        node_moved(a, b, marks),
    ensures
        node_place(b) == moved_location(node_place(a), marks),
        nodes_moved(parts(a), parts(b), marks),
{
    match (a, b) {
        (Node::Block(x), Node::Block(y)) => lemma_block(x, y, marks),
        (Node::Term(x), Node::Term(y)) => {
            lemma_inlines(x.term@, y.term@, marks);
            lemma_inlines(x.principal_text@, y.principal_text@, marks);
            lemma_blocks(x.description@, y.description@, marks);
            lemma_concat(
                inlines(x.term@),
                inlines(y.term@),
                inlines(x.principal_text@),
                inlines(y.principal_text@),
                marks,
            );
            lemma_concat(
                inlines(x.term@) + inlines(x.principal_text@),
                inlines(y.term@) + inlines(y.principal_text@),
                blocks(x.description@),
                blocks(y.description@),
                marks,
            );
        },
        (Node::Inline(x), Node::Inline(y)) => lemma_inline_node(x, y, marks),
        _ => {},
    }
}

proof fn lemma_block(a: Block<'_>, b: Block<'_>, marks: Seq<Mark>)
    requires
        block_moved(a, b, marks),
    ensures
        node_place(Node::Block(b)) == moved_location(node_place(Node::Block(a)), marks),
        nodes_moved(block_parts(a), block_parts(b), marks),
{
    match (a, b) {
        (Block::Section(x), Block::Section(y)) => {
            assert(section_moved(x, y, marks));
            lemma_inlines(x.title@, y.title@, marks);
            lemma_blocks(x.content@, y.content@, marks);
            lemma_concat(
                inlines(x.title@),
                inlines(y.title@),
                blocks(x.content@),
                blocks(y.content@),
                marks,
            );
        },
        (Block::Paragraph(x), Block::Paragraph(y)) => {
            assert(paragraph_moved(x, y, marks));
            lemma_inlines(x.title@, y.title@, marks);
            lemma_inlines(x.content@, y.content@, marks);
            lemma_concat(
                inlines(x.title@),
                inlines(y.title@),
                inlines(x.content@),
                inlines(y.content@),
                marks,
            );
        },
        (Block::DelimitedBlock(x), Block::DelimitedBlock(y)) => {
            assert(delimited_block_moved(x, y, marks));
            lemma_inlines(x.title@, y.title@, marks);
            lemma_delimited(x.inner, y.inner, marks);
            lemma_concat(
                inlines(x.title@),
                inlines(y.title@),
                delimited_nodes(x.inner),
                delimited_nodes(y.inner),
                marks,
            );
        },
        (Block::UnorderedList(x), Block::UnorderedList(y)) => {
            assert(list_moved(x, y, marks));
            assert(list_items_moved(x.items@, y.items@, marks));
            lemma_inlines(x.title@, y.title@, marks);
            lemma_items(x.items@, y.items@, marks);
            lemma_concat(
                inlines(x.title@),
                inlines(y.title@),
                items_nodes(x.items@),
                items_nodes(y.items@),
                marks,
            );
        },
        (Block::OrderedList(x), Block::OrderedList(y)) => {
            assert(list_moved(x, y, marks));
            assert(list_items_moved(x.items@, y.items@, marks));
            lemma_inlines(x.title@, y.title@, marks);
            lemma_items(x.items@, y.items@, marks);
            lemma_concat(
                inlines(x.title@),
                inlines(y.title@),
                items_nodes(x.items@),
                items_nodes(y.items@),
                marks,
            );
        },
        (Block::DescriptionList(x), Block::DescriptionList(y)) => {
            assert(description_list_moved(x, y, marks));
            lemma_inlines(x.title@, y.title@, marks);
            lemma_terms(x.items@, y.items@, marks);
            lemma_concat(
                inlines(x.title@),
                inlines(y.title@),
                terms(x.items@),
                terms(y.items@),
                marks,
            );
        },
        (Block::Admonition(x), Block::Admonition(y)) => {
            assert(admonition_moved(x, y, marks));
            lemma_inlines(x.title@, y.title@, marks);
            lemma_blocks(x.blocks@, y.blocks@, marks);
            lemma_concat(
                inlines(x.title@),
                inlines(y.title@),
                blocks(x.blocks@),
                blocks(y.blocks@),
                marks,
            );
        },
        (Block::Image(x), Block::Image(y)) => {
            assert(media_moved(x, y, marks));
            lemma_inlines(x.title@, y.title@, marks);
        },
        (Block::Audio(x), Block::Audio(y)) => {
            assert(media_moved(x, y, marks));
            lemma_inlines(x.title@, y.title@, marks);
        },
        (Block::Video(x), Block::Video(y)) => {
            assert(media_moved(x, y, marks));
            lemma_inlines(x.title@, y.title@, marks);
        },
        (Block::PageBreak(x), Block::PageBreak(y)) => {
            assert(media_moved(x, y, marks));
            lemma_inlines(x.title@, y.title@, marks);
        },
        (Block::DiscreteHeader(x), Block::DiscreteHeader(y)) => {
            assert(media_moved(x, y, marks));
            lemma_inlines(x.title@, y.title@, marks);
        },
        (Block::CalloutList(x), Block::CalloutList(y)) => {
            assert(callout_list_moved(x, y, marks));
            assert(callouts_moved(x.items@, y.items@, marks));
            lemma_inlines(x.title@, y.title@, marks);
            lemma_callouts(x.items@, y.items@, marks);
            lemma_concat(
                inlines(x.title@),
                inlines(y.title@),
                callouts_nodes(x.items@),
                callouts_nodes(y.items@),
                marks,
            );
        },
        (Block::ThematicBreak(x), Block::ThematicBreak(y)) => {
            assert(thematic_break_moved(x, y, marks));
            lemma_inlines(x.title@, y.title@, marks);
        },
        (Block::TableOfContents(x), Block::TableOfContents(y)) => {
            assert(media_moved(x, y, marks));
        },
        _ => {},
    }
}

/// The id and the anchors of a block are moved with it, and keep their ids.
pub proof fn law_anchors_are_moved(a: Block<'_>, b: Block<'_>, marks: Seq<Mark>)
    requires
        block_moved(a, b, marks),
        metadata_of(a) is Some,
    ensures
        metadata_of(b) is Some,
        metadata_of(a)->Some_0.id is Some <==> metadata_of(b)->Some_0.id is Some,
        metadata_of(a)->Some_0.id matches Some(x) ==> (metadata_of(b)->Some_0.id matches Some(y)
            ==> y.id == x.id && y.location == moved_location(x.location, marks)),
        metadata_of(a)->Some_0.anchors@.len() == metadata_of(b)->Some_0.anchors@.len(),
        forall|k: int|
            0 <= k < metadata_of(a)->Some_0.anchors@.len() ==> metadata_of(
                b,
            )->Some_0.anchors@[k].id == (#[trigger] metadata_of(a)->Some_0.anchors@[k]).id
                && metadata_of(b)->Some_0.anchors@[k].location == moved_location(
                metadata_of(a)->Some_0.anchors@[k].location,
                marks,
            ),
{
    let m = metadata_of(a)->Some_0;
    let n = metadata_of(b)->Some_0;
    match (a, b) {
        (Block::Paragraph(x), Block::Paragraph(y)) => assert(paragraph_moved(x, y, marks)),
        (Block::DelimitedBlock(x), Block::DelimitedBlock(y)) => {
            assert(delimited_block_moved(x, y, marks))
        },
        (Block::UnorderedList(x), Block::UnorderedList(y)) => assert(list_moved(x, y, marks)),
        (Block::OrderedList(x), Block::OrderedList(y)) => assert(list_moved(x, y, marks)),
        (Block::DescriptionList(x), Block::DescriptionList(y)) => {
            assert(description_list_moved(x, y, marks))
        },
        (Block::Admonition(x), Block::Admonition(y)) => assert(admonition_moved(x, y, marks)),
        (Block::Image(x), Block::Image(y)) => assert(media_moved(x, y, marks)),
        (Block::Audio(x), Block::Audio(y)) => assert(media_moved(x, y, marks)),
        (Block::Video(x), Block::Video(y)) => assert(media_moved(x, y, marks)),
        (Block::PageBreak(x), Block::PageBreak(y)) => assert(media_moved(x, y, marks)),
        (Block::DiscreteHeader(x), Block::DiscreteHeader(y)) => assert(media_moved(x, y, marks)),
        (Block::CalloutList(x), Block::CalloutList(y)) => {
            assert(callout_list_moved(x, y, marks))
        },
        (Block::TableOfContents(x), Block::TableOfContents(y)) => assert(media_moved(x, y, marks)),
        _ => {},
    }
    assert(block_metadata_moved(m, n, marks));
    assert(optional_anchor_moved(m.id, n.id, marks));
    match (m.id, n.id) {
        (Some(x), Some(y)) => assert(anchor_moved(x, y, marks)),
        _ => {},
    }
    assert(anchors_moved(m.anchors@, n.anchors@, marks));
    assert forall|k: int| 0 <= k < m.anchors@.len() implies n.anchors@[k].id == (
    #[trigger] m.anchors@[k]).id && n.anchors@[k].location == moved_location(
        m.anchors@[k].location,
        marks,
    ) by {
        assert(anchor_moved(m.anchors@[k], n.anchors@[k], marks));
    }
}

/// The items of a list are moved with it, each to its own place.
pub proof fn law_items_are_moved(a: Block<'_>, b: Block<'_>, marks: Seq<Mark>, k: int)
    requires
        block_moved(a, b, marks),
    ensures
        a matches Block::UnorderedList(x) ==> b matches Block::UnorderedList(y) && (0 <= k
            < x.items@.len() ==> y.items@[k].location == moved_location(
            x.items@[k].location,
            marks,
        )),
        a matches Block::OrderedList(x) ==> b matches Block::OrderedList(y) && (0 <= k
            < x.items@.len() ==> y.items@[k].location == moved_location(
            x.items@[k].location,
            marks,
        )),
        a matches Block::CalloutList(x) ==> b matches Block::CalloutList(y) && (0 <= k
            < x.items@.len() ==> y.items@[k].location == moved_location(
            x.items@[k].location,
            marks,
        )),
        a matches Block::Section(x) ==> b matches Block::Section(y) && y.id == x.id,
{
    match (a, b) {
        (Block::UnorderedList(x), Block::UnorderedList(y)) => {
            assert(list_moved(x, y, marks));
            assert(list_items_moved(x.items@, y.items@, marks));
            if 0 <= k < x.items@.len() {
                assert(list_item_moved(x.items@[k], y.items@[k], marks));
            }
        },
        (Block::OrderedList(x), Block::OrderedList(y)) => {
            assert(list_moved(x, y, marks));
            assert(list_items_moved(x.items@, y.items@, marks));
            if 0 <= k < x.items@.len() {
                assert(list_item_moved(x.items@[k], y.items@[k], marks));
            }
        },
        (Block::CalloutList(x), Block::CalloutList(y)) => {
            assert(callout_list_moved(x, y, marks));
            assert(callouts_moved(x.items@, y.items@, marks));
            if 0 <= k < x.items@.len() {
                assert(callout_list_item_moved(x.items@[k], y.items@[k], marks));
            }
        },
        (Block::Section(x), Block::Section(y)) => assert(section_moved(x, y, marks)),
        _ => {},
    }
}

/// What inline content says stays as it is: its text, its id and its target.
pub proof fn law_inline_content_is_kept(a: InlineNode<'_>, b: InlineNode<'_>, marks: Seq<Mark>)
    requires
        inline_node_moved(a, b, marks),
    ensures
        a matches InlineNode::PlainText(x) ==> b matches InlineNode::PlainText(y) && y.content
            == x.content,
        a matches InlineNode::RawText(x) ==> b matches InlineNode::RawText(y) && y.content
            == x.content,
        a matches InlineNode::VerbatimText(x) ==> b matches InlineNode::VerbatimText(y)
            && y.content == x.content,
        a matches InlineNode::InlineAnchor(x) ==> b matches InlineNode::InlineAnchor(y) && y.id
            == x.id,
        as_span(a) matches Some(x) ==> as_span(b) matches Some(y) && y.id == x.id,
        a matches InlineNode::Macro(InlineMacro::CrossReference(x)) ==> b matches InlineNode::Macro(
            InlineMacro::CrossReference(y),
        ) && y.target == x.target,
        a matches InlineNode::Macro(InlineMacro::Link(x)) ==> b matches InlineNode::Macro(
            InlineMacro::Link(y),
        ) && y.target == x.target,
        a matches InlineNode::Macro(InlineMacro::Footnote(x)) ==> b matches InlineNode::Macro(
            InlineMacro::Footnote(y),
        ) && y.id == x.id,
{
    match (a, b) {
        (InlineNode::PlainText(x), InlineNode::PlainText(y)) => assert(text_moved(x, y, marks)),
        (InlineNode::RawText(x), InlineNode::RawText(y)) => assert(text_moved(x, y, marks)),
        (InlineNode::VerbatimText(x), InlineNode::VerbatimText(y)) => {
            assert(text_moved(x, y, marks))
        },
        (InlineNode::InlineAnchor(x), InlineNode::InlineAnchor(y)) => {
            assert(anchor_moved(x, y, marks))
        },
        (InlineNode::Macro(m), InlineNode::Macro(n)) => {
            assert(inline_macro_moved(m, n, marks));
            match (m, n) {
                (InlineMacro::Footnote(x), InlineMacro::Footnote(y)) => {
                    assert(footnote_moved(x, y, marks))
                },
                (InlineMacro::Link(x), InlineMacro::Link(y)) => assert(link_moved(x, y, marks)),
                (InlineMacro::CrossReference(x), InlineMacro::CrossReference(y)) => {
                    assert(cross_reference_moved(x, y, marks))
                },
                _ => {},
            }
        },
        _ => {
            if as_span(a) is Some {
                assert(span_moved(as_span(a)->Some_0, as_span(b)->Some_0, marks));
            }
        },
    }
}

/// One backslash moves what stands on it or behind it by one byte, and on its line by one
/// column; an end moves only where the backslash stands before it.
pub proof fn law_one_mark_moves_by_one(l: Location, mark: Mark)
    requires
        l.absolute_start < usize::MAX,
        l.absolute_end < usize::MAX,
        l.start.column < u32::MAX,
        l.end.column < u32::MAX,
    ensures
        ({
            let moved = moved_location(l, seq![mark]);
            &&& moved.absolute_start == l.absolute_start + if mark.offset <= l.absolute_start {
                1int
            } else {
                0
            }
            &&& moved.absolute_end == l.absolute_end + if mark.offset < l.absolute_end {
                1int
            } else {
                0
            }
            &&& moved.start.line == l.start.line
            &&& moved.end.line == l.end.line
            &&& moved.start.column == l.start.column + if mark.line == l.start.line && mark.column
                <= l.start.column {
                1int
            } else {
                0
            }
            &&& moved.end.column == l.end.column + if mark.line == l.end.line && mark.column
                <= l.end.column {
                1int
            } else {
                0
            }
        }),
{
    let one = seq![mark];
    assert(one.drop_first() =~= Seq::empty());
    assert(one.drop_last() =~= Seq::empty());
    reveal_with_fuel(marks_below, 2);
    reveal_with_fuel(marks_in_line, 2);
}

} // verus!

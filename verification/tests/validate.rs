//! Anchors, references to them, and the warnings about both.

use acdc_parser::model::anchor::{Anchor, AnchorKind};
use acdc_parser::model::document::{
    Admonition, Block, BlockMetadata, CrossReference, DelimitedBlock, DelimitedBlockType,
    DescriptionList, DescriptionListItem, Document, Footnote, InlineMacro, InlineNode, Link, List,
    ListItem, Media, Paragraph, Section, Span, Table, TableColumn, TableRow, Text, ThematicBreak,
};
use acdc_parser::model::{Location, Position};
use acdc_parser::validate::{
    collect_block_anchors, collect_block_xrefs, collect_reference_warnings, is_verifiable_local_id,
    Mention,
};

fn at(line: u32, column: u32, start: usize, end: usize) -> Location {
    let last = column + (end - start) as u32;
    Location {
        absolute_start: start,
        absolute_end: end,
        start: Position { line, column },
        end: Position { line, column: last },
    }
}

fn bare() -> BlockMetadata<'static> {
    BlockMetadata { id: None, anchors: vec![] }
}

fn anchored(anchors: Vec<Anchor<'static>>) -> BlockMetadata<'static> {
    BlockMetadata { id: None, anchors }
}

fn text(content: &'static str, location: Location) -> InlineNode<'static> {
    InlineNode::PlainText(Text { content, location })
}

fn xref(target: &'static str, location: Location) -> InlineNode<'static> {
    InlineNode::Macro(InlineMacro::CrossReference(CrossReference {
        target,
        text: vec![],
        location,
    }))
}

fn paragraph(
    metadata: BlockMetadata<'static>,
    content: Vec<InlineNode<'static>>,
    location: Location,
) -> Block<'static> {
    Block::Paragraph(Paragraph { metadata, title: vec![], content, location })
}

fn section(
    id: &'static str,
    metadata: BlockMetadata<'static>,
    title: &'static str,
    content: Vec<Block<'static>>,
    location: Location,
) -> Block<'static> {
    Block::Section(Section { id, metadata, title: vec![text(title, location)], content, location })
}

fn document(blocks: Vec<Block<'static>>) -> Document<'static> {
    Document { blocks, location: at(1, 1, 0, 200) }
}

fn warn_kinds(blocks: Vec<Block<'static>>) -> Vec<(String, String)> {
    collect_reference_warnings(&document(blocks))
        .into_iter()
        .map(|w| (w.kind.to_string(), w.message))
        .collect()
}

/// A paragraph `See <<target>>.` on the given line.
fn see(target: &'static str, line: u32, start: usize) -> Block<'static> {
    paragraph(
        bare(),
        vec![
            text("See ", at(line, 1, start, start + 4)),
            xref(target, at(line, 5, start + 4, start + 14)),
            text(".", at(line, 15, start + 14, start + 15)),
        ],
        at(line, 1, start, start + 15),
    )
}

#[test]
fn resolved_xref_no_warning() {
    // = Doc / See xref:section-two[Two]. / [[section-two]] / == Section Two / Body.
    let kinds = warn_kinds(vec![
        see("section-two", 3, 7),
        section(
            "section-two",
            anchored(vec![Anchor::new("section-two", at(5, 1, 35, 50))]),
            "Section Two",
            vec![paragraph(bare(), vec![text("Body.", at(8, 1, 67, 72))], at(8, 1, 67, 72))],
            at(6, 1, 51, 72),
        ),
    ]);
    assert!(kinds.is_empty(), "expected no warnings, got: {kinds:?}");
}

#[test]
fn unresolved_xref_warns() {
    // = Doc / See xref:missing-id[X]. / == Real Section / Body.
    let kinds = warn_kinds(vec![
        see("missing-id", 3, 7),
        section(
            "_real_section",
            bare(),
            "Real Section",
            vec![paragraph(bare(), vec![text("Body.", at(7, 1, 50, 55))], at(7, 1, 50, 55))],
            at(5, 1, 32, 55),
        ),
    ]);
    let xref: Vec<_> = kinds.iter().filter(|(k, _)| k == "UnresolvedCrossReference").collect();
    assert_eq!(xref.len(), 1, "expected 1 unresolved-xref, got: {kinds:?}");
    assert!(
        xref.first().is_some_and(|(_, m)| m.contains("missing-id")),
        "message should name the target: {kinds:?}"
    );
}

#[test]
fn auto_section_id_resolves_xref() {
    // = Doc / See xref:_section_two[]. / == Section Two / Body.
    let kinds = warn_kinds(vec![
        see("_section_two", 3, 7),
        section(
            "_section_two",
            bare(),
            "Section Two",
            vec![paragraph(bare(), vec![text("Body.", at(7, 1, 50, 55))], at(7, 1, 50, 55))],
            at(5, 1, 33, 55),
        ),
    ]);
    assert!(
        kinds.iter().all(|(k, _)| k != "UnresolvedCrossReference"),
        "auto section id should resolve, got: {kinds:?}"
    );
}

#[test]
fn cross_file_xref_skipped() {
    // = Doc / See xref:other.adoc#thing[] and <<chapter.adoc#x>>.
    let kinds = warn_kinds(vec![paragraph(
        bare(),
        vec![
            text("See ", at(3, 1, 7, 11)),
            xref("other.adoc#thing", at(3, 5, 11, 34)),
            text(" and ", at(3, 28, 34, 39)),
            xref("chapter.adoc#x", at(3, 33, 39, 57)),
        ],
        at(3, 1, 7, 58),
    )]);
    assert!(
        kinds.iter().all(|(k, _)| k != "UnresolvedCrossReference"),
        "cross-file xrefs must be skipped, got: {kinds:?}"
    );
}

#[test]
fn duplicate_explicit_anchor_warns() {
    // = Doc / [[dup]] / First para. / [[dup]] / Second para.
    let kinds = warn_kinds(vec![
        paragraph(
            anchored(vec![Anchor::new("dup", at(3, 1, 7, 14))]),
            vec![text("First para.", at(4, 1, 15, 26))],
            at(4, 1, 15, 26),
        ),
        paragraph(
            anchored(vec![Anchor::new("dup", at(6, 1, 28, 35))]),
            vec![text("Second para.", at(7, 1, 36, 48))],
            at(7, 1, 36, 48),
        ),
    ]);
    let dups: Vec<_> = kinds.iter().filter(|(k, _)| k == "DuplicateAnchorId").collect();
    assert_eq!(dups.len(), 1, "expected 1 duplicate-anchor, got: {kinds:?}");
    assert!(
        dups.first().is_some_and(|(_, m)| m.contains("dup")),
        "message should name the id: {kinds:?}"
    );
}

#[test]
fn unique_anchors_no_duplicate_warning() {
    // = Doc / [[a]] / Para A. / [[b]] / Para B.
    let kinds = warn_kinds(vec![
        paragraph(
            anchored(vec![Anchor::new("a", at(3, 1, 7, 12))]),
            vec![text("Para A.", at(4, 1, 13, 20))],
            at(4, 1, 13, 20),
        ),
        paragraph(
            anchored(vec![Anchor::new("b", at(6, 1, 22, 27))]),
            vec![text("Para B.", at(7, 1, 28, 35))],
            at(7, 1, 28, 35),
        ),
    ]);
    assert!(
        kinds.iter().all(|(k, _)| k != "DuplicateAnchorId"),
        "unique anchors should not warn, got: {kinds:?}"
    );
}

#[test]
fn synonym_anchor_pair_does_not_false_duplicate() {
    // = Doc / [#foo] / [[foo]] / Para.
    let kinds = warn_kinds(vec![paragraph(
        BlockMetadata {
            id: Some(Anchor::new("foo", at(3, 1, 7, 13))),
            anchors: vec![
                Anchor::new("foo", at(3, 1, 7, 13)),
                Anchor::new("foo", at(4, 1, 14, 21)),
            ],
        },
        vec![text("Para.", at(5, 1, 22, 27))],
        at(5, 1, 22, 27),
    )]);
    assert!(
        kinds.iter().all(|(k, _)| k != "DuplicateAnchorId"),
        "synonym anchor pair must not false-flag DuplicateAnchorId, got: {kinds:?}"
    );
}

#[test]
fn inline_formatted_span_id_resolves_xref() {
    // = Doc / Para with [#sid]*bold text*. / See <<sid>>.
    let kinds = warn_kinds(vec![
        paragraph(
            bare(),
            vec![
                text("Para with ", at(3, 1, 7, 17)),
                InlineNode::BoldText(Span {
                    id: Some("sid"),
                    content: vec![text("bold text", at(3, 18, 24, 33))],
                    location: at(3, 11, 17, 34),
                }),
            ],
            at(3, 1, 7, 35),
        ),
        see("sid", 5, 37),
    ]);
    assert!(
        kinds.iter().all(|(k, _)| k != "UnresolvedCrossReference"),
        "inline span id must register, got: {kinds:?}"
    );
}

#[test]
fn footnote_id_resolves_xref() {
    // = Doc / Para with footnote:my-fn[content]. / See <<my-fn>>.
    let kinds = warn_kinds(vec![
        paragraph(
            bare(),
            vec![
                text("Para with ", at(3, 1, 7, 17)),
                InlineNode::Macro(InlineMacro::Footnote(Footnote {
                    id: Some("my-fn"),
                    content: vec![text("content", at(3, 27, 33, 40))],
                    location: at(3, 11, 17, 41),
                })),
            ],
            at(3, 1, 7, 42),
        ),
        see("my-fn", 5, 44),
    ]);
    assert!(
        kinds.iter().all(|(k, _)| k != "UnresolvedCrossReference"),
        "footnote id must register, got: {kinds:?}"
    );
}

#[test]
fn anchor_on_list_block_resolves_xref() {
    // = Doc / [[list-id]] / * item 1 / * item 2 / See <<list-id>>.
    let item = |content: &'static str, line: u32, start: usize| ListItem {
        principal: vec![text(content, at(line, 3, start + 2, start + 8))],
        blocks: vec![],
        location: at(line, 1, start, start + 8),
    };
    let kinds = warn_kinds(vec![
        Block::UnorderedList(List {
            metadata: anchored(vec![Anchor::new("list-id", at(3, 1, 7, 18))]),
            title: vec![],
            items: vec![item("item 1", 4, 19), item("item 2", 5, 28)],
            location: at(4, 1, 19, 36),
        }),
        see("list-id", 7, 38),
    ]);
    assert!(
        kinds.iter().all(|(k, _)| k != "UnresolvedCrossReference"),
        "list-block anchor must register, got: {kinds:?}"
    );
}

#[test]
fn anchor_on_admonition_resolves_xref() {
    // = Doc / [[note-id]] / NOTE: This is a note. / See <<note-id>>.
    let kinds = warn_kinds(vec![
        Block::Admonition(Admonition {
            metadata: anchored(vec![Anchor::new("note-id", at(3, 1, 7, 18))]),
            title: vec![],
            blocks: vec![paragraph(
                bare(),
                vec![text("This is a note.", at(4, 7, 25, 40))],
                at(4, 7, 25, 40),
            )],
            location: at(4, 1, 19, 40),
        }),
        see("note-id", 6, 42),
    ]);
    assert!(
        kinds.iter().all(|(k, _)| k != "UnresolvedCrossReference"),
        "admonition block anchor must register, got: {kinds:?}"
    );
}

#[test]
fn section_synonym_anchor_pair_does_not_false_duplicate() {
    // = Doc / [[a]] / [[a]] / [[b]] / == Section / body
    let kinds = warn_kinds(vec![section(
        "b",
        anchored(vec![
            Anchor::new("a", at(3, 1, 7, 12)),
            Anchor::new("a", at(4, 1, 13, 18)),
            Anchor::new("b", at(5, 1, 19, 24)),
        ]),
        "Section",
        vec![paragraph(bare(), vec![text("body", at(8, 1, 37, 41))], at(8, 1, 37, 41))],
        at(6, 1, 25, 41),
    )]);
    assert!(
        kinds.iter().all(|(k, _)| k != "DuplicateAnchorId"),
        "section synonym anchors must not false-flag DuplicateAnchorId, got: {kinds:?}"
    );
}

#[test]
fn footnote_reference_form_does_not_false_duplicate() {
    // = Doc / First footnote:fn1[the body]. / Second ref footnote:fn1[].
    let footnote = |content: Vec<InlineNode<'static>>, location: Location| {
        InlineNode::Macro(InlineMacro::Footnote(Footnote { id: Some("fn1"), content, location }))
    };
    let kinds = warn_kinds(vec![
        paragraph(
            bare(),
            vec![
                text("First ", at(3, 1, 7, 13)),
                footnote(vec![text("the body", at(3, 20, 26, 34))], at(3, 7, 13, 35)),
            ],
            at(3, 1, 7, 36),
        ),
        paragraph(
            bare(),
            vec![
                text("Second ref ", at(5, 1, 38, 49)),
                footnote(vec![], at(5, 12, 49, 63)),
            ],
            at(5, 1, 38, 64),
        ),
    ]);
    assert!(
        kinds.iter().all(|(k, _)| k != "DuplicateAnchorId"),
        "footnote reference form must not false-flag DuplicateAnchorId, got: {kinds:?}"
    );
}

#[test]
fn anchor_on_table_of_contents_resolves_xref() {
    // = Doc / [[toc-id]] / toc::[] / See <<toc-id>>.
    let kinds = warn_kinds(vec![
        Block::TableOfContents(Media {
            metadata: anchored(vec![Anchor::new("toc-id", at(3, 1, 7, 17))]),
            title: vec![],
            location: at(4, 1, 18, 25),
        }),
        see("toc-id", 6, 27),
    ]);
    assert!(
        kinds.iter().all(|(k, _)| k != "UnresolvedCrossReference"),
        "TOC block anchor must register, got: {kinds:?}"
    );
}

fn column(content: Vec<Block<'static>>) -> TableColumn<'static> {
    TableColumn { content, colspan: 1, rowspan: 1, halign: None, valign: None, style: None }
}

#[test]
fn anchor_inside_table_cell_is_collected() {
    // = Doc / |=== / a|[[in-cell]] / Cell body. / |=== / See <<in-cell>>.
    let cell = paragraph(
        anchored(vec![Anchor::new("in-cell", at(4, 3, 14, 25))]),
        vec![text("Cell body.", at(5, 1, 26, 36))],
        at(5, 1, 26, 36),
    );
    let kinds = warn_kinds(vec![
        Block::DelimitedBlock(DelimitedBlock {
            metadata: bare(),
            title: vec![],
            inner: DelimitedBlockType::DelimitedTable(Table {
                header: None,
                rows: vec![TableRow { columns: vec![column(vec![cell])] }],
                footer: None,
                location: at(3, 1, 7, 41),
            }),
            location: at(3, 1, 7, 41),
        }),
        see("in-cell", 8, 43),
    ]);
    assert!(
        kinds.iter().all(|(k, _)| k != "UnresolvedCrossReference"),
        "anchor inside table cell must register and resolve the xref, got: {kinds:?}"
    );
}

#[test]
fn an_unresolved_reference_is_reported_at_its_place() {
    let found = collect_reference_warnings(&document(vec![see("nowhere", 4, 30)]));
    assert_eq!(found.len(), 1);
    assert_eq!(found[0].kind, "UnresolvedCrossReference");
    assert_eq!(found[0].message, "unresolved cross-reference: no anchor with id 'nowhere'");
    assert_eq!((found[0].line, found[0].column), (Some(4), Some(5)));
}

#[test]
fn a_duplicate_is_reported_at_the_later_place() {
    let found = collect_reference_warnings(&document(vec![
        paragraph(
            anchored(vec![Anchor::new("twice", at(1, 1, 0, 9))]),
            vec![text("x", at(2, 1, 10, 11))],
            at(2, 1, 10, 11),
        ),
        paragraph(
            anchored(vec![Anchor::new("twice", at(4, 3, 15, 24))]),
            vec![text("y", at(5, 1, 25, 26))],
            at(5, 1, 25, 26),
        ),
    ]));
    assert_eq!(found.len(), 1);
    assert_eq!(found[0].kind, "DuplicateAnchorId");
    assert_eq!(found[0].message, "duplicate anchor id: 'twice' is already defined");
    assert_eq!((found[0].line, found[0].column), (Some(4), Some(3)));
}

#[test]
fn the_same_anchor_seen_twice_is_no_duplicate() {
    let here = at(3, 1, 7, 12);
    let found = collect_reference_warnings(&document(vec![
        paragraph(anchored(vec![Anchor::new("a", here)]), vec![], at(4, 1, 13, 20)),
        paragraph(
            bare(),
            vec![InlineNode::InlineAnchor(Anchor::new("a", here))],
            at(4, 1, 13, 20),
        ),
    ]));
    assert!(found.is_empty(), "{found:?}");
}

#[test]
fn only_ids_of_this_document_are_checked() {
    assert!(is_verifiable_local_id("section-two"));
    assert!(!is_verifiable_local_id(""));
    assert!(!is_verifiable_local_id("other.adoc#thing"));
    assert!(!is_verifiable_local_id("chapter.adoc"));
    assert!(!is_verifiable_local_id("dir/chapter"));
    assert!(!is_verifiable_local_id("dir\\chapter"));
    assert!(!is_verifiable_local_id("http:chapter"));
    assert!(!is_verifiable_local_id("Chapter.AsciiDoc"));
    assert!(!is_verifiable_local_id("Some Title"));
    assert!(is_verifiable_local_id(".adoc"));
    assert!(is_verifiable_local_id("v1.2"));
}

fn ids(found: &[Mention<'_>]) -> Vec<String> {
    found.iter().map(|m| m.id.to_string()).collect()
}

#[test]
fn anchors_come_in_the_order_of_the_document() {
    let inner = paragraph(
        anchored(vec![Anchor::new("inner", at(5, 1, 40, 45))]),
        vec![InlineNode::InlineAnchor(Anchor::new("inline", at(6, 1, 46, 52)))],
        at(6, 1, 46, 52),
    );
    let outer = section("outer", bare(), "Outer", vec![inner], at(3, 1, 20, 52));
    let mut found = Vec::new();
    collect_block_anchors(&outer, &mut found);
    assert_eq!(ids(&found), vec!["outer", "inner", "inline"]);
}

#[test]
fn references_are_found_at_any_depth() {
    let link = InlineNode::Macro(InlineMacro::Link(Link {
        target: "https://example.org",
        text: vec![xref("in-link", at(1, 1, 0, 5))],
        location: at(1, 1, 0, 9),
    }));
    let quoted = Block::DelimitedBlock(DelimitedBlock {
        metadata: bare(),
        title: vec![xref("in-title", at(2, 1, 10, 15))],
        inner: DelimitedBlockType::DelimitedQuote(vec![paragraph(
            bare(),
            vec![
                link,
                InlineNode::ItalicText(Span {
                    id: None,
                    content: vec![xref("in-span", at(3, 1, 20, 25))],
                    location: at(3, 1, 20, 26),
                }),
            ],
            at(3, 1, 20, 30),
        )]),
        location: at(2, 1, 10, 30),
    });
    let mut found = Vec::new();
    collect_block_xrefs(&quoted, &mut found);
    assert_eq!(ids(&found), vec!["in-title", "in-link", "in-span"]);
}

#[test]
fn terms_and_breaks_hold_anchors() {
    let terms = Block::DescriptionList(DescriptionList {
        metadata: bare(),
        title: vec![],
        items: vec![DescriptionListItem {
            anchors: vec![Anchor::new("term", at(1, 1, 0, 8))],
            term: vec![text("Term", at(1, 9, 8, 12))],
            principal_text: vec![],
            description: vec![],
            location: at(1, 1, 0, 20),
        }],
        location: at(1, 1, 0, 20),
    });
    let line = Block::ThematicBreak(ThematicBreak {
        anchors: vec![Anchor::new("line", at(3, 1, 22, 30))],
        title: vec![],
        location: at(4, 1, 31, 34),
    });
    let mut found = Vec::new();
    collect_block_anchors(&terms, &mut found);
    collect_block_anchors(&line, &mut found);
    assert_eq!(ids(&found), vec!["term", "line"]);
}

#[test]
fn an_anchor_is_built_by_parts() {
    let place = at(2, 1, 5, 9);
    let anchor = Anchor::new("ref", place);
    assert_eq!((anchor.id, anchor.xreflabel, anchor.kind), ("ref", None, AnchorKind::Inline));
    assert!(anchor.kind.is_inline());
    let shown = anchor.with_kind(AnchorKind::Bibliography).with_xreflabel(Some("1"));
    assert_eq!((shown.id, shown.xreflabel), ("ref", Some("1")));
    assert!(!shown.kind.is_inline());
    assert_eq!(shown.location, place);
    assert_eq!(Anchor::default().location, Location::default());
}

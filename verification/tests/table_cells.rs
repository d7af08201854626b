//! Tables as a whole: cells of several lines, spans, bounds, comma-separated bodies,
//! and the places of what stands in a cell.

use acdc_parser::model::document::{
    Block, BlockMetadata, InlineNode, Paragraph, Span, Table, TableColumn, Text,
};
use acdc_parser::model::{ColumnStyle, HorizontalAlignment, Location, Position, VerticalAlignment};
use acdc_parser::table::cell::{cell_grammar, parse_table_cell, CellGrammar};
use acdc_parser::table::csv_rows::{
    csv_header_implied, find_closing_quote, find_csv_field_position, find_unquoted_field_end,
    parse_csv_table, skip_to_next_field, CsvRecord,
};
use acdc_parser::table::escape::{escape_collapse_positions, find_marks, move_location};
use acdc_parser::table::grid::{cell_grid_width, grid_reflow};
use acdc_parser::table::limits::{
    occupied_columns, saturating_product, validate_cell_specifiers, validate_table_limits,
    TableLimitViolation,
};
use acdc_parser::table::row::ParsedCell;
use acdc_parser::table::rows::{detect_header_after_first_row, is_new_row_start};
use acdc_parser::table::separator::{
    find_first_separator, split_line, split_multi_char, SepKind, Separator,
};
use acdc_parser::table::specifier::{CellSpecifier, ParseContext};
use std::time::{Duration, Instant};

fn read(text: &str, ncols: Option<usize>) -> Result<(Vec<Vec<ParsedCell>>, bool), TableLimitViolation> {
    let mut has_header = false;
    let rows = Table::parse_rows_with_positions(
        text,
        &Separator::new("|"),
        true,
        false,
        &mut has_header,
        0,
        ncols,
    )?;
    Ok((rows, has_header))
}

fn contents(rows: &[Vec<ParsedCell>]) -> Vec<Vec<&str>> {
    rows.iter().map(|row| row.iter().map(|c| c.content.as_str()).collect()).collect()
}

// ---------------------------------------------------------------------------
// Rows under a span.
// ---------------------------------------------------------------------------

#[test]
fn single_col_rowspan_does_not_cascade_drop_trailing_rows() {
    let (rows, _) = read(".2+|Alpha\n|Beta\n|Gamma\n", Some(1)).expect("table should parse");
    assert!(contents(&rows).concat().contains(&"Gamma"), "{rows:?}");
    assert_eq!(contents(&rows), vec![vec!["Alpha"], vec![], vec!["Gamma"]]);
}

#[test]
fn tall_rowspan_does_not_cascade_drop_trailing_rows() {
    let (rows, _) =
        read(".3+|Alpha\n|Beta\n|Gamma\n|Delta\n", Some(1)).expect("table should parse");
    assert!(contents(&rows).concat().contains(&"Delta"), "{rows:?}");
}

#[test]
fn side_by_side_full_width_rowspans_do_not_cascade_drop() {
    let (rows, _) = read(".2+|Alpha .2+|Bravo\n|Charlie |Delta\n|Echo |Foxtrot\n", Some(2))
        .expect("table should parse");
    let all = contents(&rows).concat();
    assert!(all.contains(&"Echo") || all.contains(&"Foxtrot"), "{rows:?}");
}

#[test]
fn full_width_rowspan_overlap_row_is_emitted() {
    let (rows, _) = read("2.2+|A\n|Beta\n|Cee\n|Dee\n", Some(2)).expect("table should parse");
    let all = contents(&rows).concat();
    assert!(all.contains(&"Cee") && all.contains(&"Dee"), "{rows:?}");
}

#[test]
fn mid_column_rowspan_crossed_by_colspan_keeps_cells() {
    let (rows, _) = read("|a .3+|b |c\n2+|de\n2+|gh\n", Some(3)).expect("table should parse");
    assert_eq!(contents(&rows), vec![vec!["a", "b", "c"], vec!["de"], vec!["gh"]]);
}

#[test]
fn mid_column_rowspan_crossed_by_mixed_colspans_keeps_cells() {
    let (rows, _) =
        read("|a .3+|b |c |d\n2+|ef |g\n|h 2+|ij\n", Some(4)).expect("table should parse");
    assert_eq!(
        contents(&rows),
        vec![vec!["a", "b", "c", "d"], vec!["ef", "g"], vec!["h", "ij"]]
    );
}

#[test]
fn duplication_straddling_smaller_cols_wraps_not_overwide() {
    let (rows, _) = read("|aa 3*|bb\n", Some(2)).expect("table should parse");
    assert_eq!(contents(&rows), vec![vec!["aa", "bb"], vec!["bb", "bb"]]);
}

// ---------------------------------------------------------------------------
// Blank lines.
// ---------------------------------------------------------------------------

#[test]
fn asciidoc_cell_with_internal_blank_keeps_post_blank_content() {
    let (rows, _) = read("a|P1\n\nP2 |B\n", None).expect("table should parse");
    assert_eq!(rows.len(), 1, "one 2-col row: {rows:?}");
    assert_eq!(rows[0].len(), 2, "row has 2 cells: {rows:?}");
    assert!(rows[0][0].content.contains("P1") && rows[0][0].content.contains("P2"), "{rows:?}");
    assert_eq!(rows[0][1].content, "B");
}

#[test]
fn asciidoc_cell_multiple_internal_blanks_and_following_row() {
    let (rows, _) = read("a|P1\n\nP2\n\nP3 |B\n", None).expect("table should parse");
    assert_eq!(rows.len(), 1);
    let first = &rows[0][0].content;
    assert!(first.contains("P1") && first.contains("P2") && first.contains("P3"), "{first:?}");
    let (rows, _) = read("a|P1\n\nP2 |B\n|C |D\n", Some(2)).expect("table should parse");
    assert_eq!(rows.len(), 2, "{rows:?}");
    assert_eq!(rows[1][0].content, "C");
}

#[test]
fn blank_absorbed_into_open_simple_cell_when_continuation_follows() {
    let (rows, _) = read("|a |b\n\nc |d\n", Some(3)).expect("table should parse");
    assert_eq!(contents(&rows), vec![vec!["a", "b\n\nc", "d"]]);
}

#[test]
fn blank_before_separator_led_line_terminates_row_no_residue() {
    let (rows, _) = read("|x\nl|lit\n\n|c |d\n", Some(2)).expect("table should parse");
    assert_eq!(contents(&rows), vec![vec!["x", "lit"], vec!["c", "d"]]);
}

#[test]
fn implicit_header_fires_only_from_first_physical_line_plus_blank() {
    let (rows, has_header) = read("|a |b\n\n|c |d\n", None).expect("table should parse");
    assert!(has_header);
    assert_eq!(contents(&rows), vec![vec!["a", "b"], vec!["c", "d"]]);
}

#[test]
fn no_implicit_header_when_first_row_spans_multiple_physical_lines() {
    let (rows, has_header) = read("|x\nl|lit\n\n|c |d\n", Some(2)).expect("table should parse");
    assert!(!has_header);
    assert_eq!(rows.len(), 2);
}

#[test]
fn a_header_needs_a_row_behind_the_blank_line() {
    let sep = Separator::new("|");
    assert!(detect_header_after_first_row(&["|a |b", "", "|c |d"], 1, &sep));
    assert!(!detect_header_after_first_row(&["|a |b", "", "more"], 1, &sep));
    assert!(!detect_header_after_first_row(&["|a |b", "", r"more \| text"], 1, &sep));
    assert!(!detect_header_after_first_row(&["|a |b", ""], 1, &sep));
}

// ---------------------------------------------------------------------------
// Bounds.
// ---------------------------------------------------------------------------

fn assert_rejected_fast(text: &str, ncols: Option<usize>) {
    let started = Instant::now();
    let result = read(text, ncols);
    let elapsed = started.elapsed();
    let Err(violation) = result else {
        panic!("hostile duplication must be rejected, text={text:?}");
    };
    let resource = violation.resource;
    assert!(
        resource.contains("duplication") || resource.contains("column") || resource.contains("row"),
        "rejection must name the bound that was exceeded, got {resource:?}"
    );
    assert!(elapsed < Duration::from_secs(1), "rejected only after {elapsed:?}");
}

#[test]
fn hostile_duplication_with_explicit_cols_is_rejected_before_expansion() {
    assert_rejected_fast("999999999*| x\n", Some(2));
    assert_rejected_fast("1000000*| x\n", Some(2));
}

#[test]
fn hostile_duplication_without_cols_is_rejected_before_expansion() {
    assert_rejected_fast("999999999*| x\n", None);
    assert_rejected_fast("1000000*| x\n", None);
}

#[test]
fn duplication_within_the_bound_still_parses() {
    read("50*| x\n50*| y\n", None).expect("50* is well under the bound");
    read("100*| x\n", None).expect("100* is exactly the bound");
}

#[test]
fn every_hostile_table_dimension_is_bounded() {
    for (text, ncols) in [
        ("999999999*| x\n", Some(2)),
        ("999999999*| x\n", None),
        ("999999999+| x\n", Some(2)),
        ("999999999+| x\n", None),
        (".999999999+| x\n", Some(2)),
        (".999999999+| x\n", None),
        ("999999+.999999+| x\n", None),
        ("| x\n", Some(999_999_999)),
        ("1000*| x\n1000*| y\n1000*| z\n", Some(2)),
        ("99999*2+| x\n", Some(4)),
    ] {
        let started = Instant::now();
        let result = read(text, ncols);
        let elapsed = started.elapsed();
        assert!(elapsed < Duration::from_secs(2), "{text:?} took {elapsed:?}");
        if let Ok((rows, _)) = result {
            let bytes: usize = rows.iter().flatten().map(|c| c.content.len() + 1).sum();
            assert!(bytes < 64 * 1024, "{text:?} produced {bytes} bytes");
        }
    }
}

#[test]
fn a_violation_names_the_resource_and_the_numbers() {
    let e = read("101*| x\n", None).expect_err("too many copies");
    assert_eq!((e.resource, e.requested, e.limit), ("cell duplication", 101, 100));
    let e = read("101+| x\n", None).expect_err("too wide");
    assert_eq!((e.resource, e.requested, e.limit), ("column span", 101, 100));
    let e = read(".1001+| x\n", None).expect_err("too high");
    assert_eq!((e.resource, e.requested, e.limit), ("row span", 1001, 1000));
    let e = read("| x\n", Some(101)).expect_err("too many columns");
    assert_eq!((e.resource, e.requested, e.limit), ("column count", 101, 100));
    let many = "| x\n".repeat(1001);
    let e = read(&many, Some(1)).expect_err("too many rows");
    assert_eq!((e.resource, e.requested, e.limit), ("row count", 1001, 1000));
}

fn cell(content: &str) -> ParsedCell {
    ParsedCell {
        content: content.to_string(),
        start: 0,
        content_start: 0,
        end: 0,
        colspan: 1,
        rowspan: 1,
        halign: None,
        valign: None,
        style: None,
        is_duplication: false,
        duplication_count: 1,
    }
}

#[test]
fn a_repeated_cell_takes_a_column_for_each_copy() {
    let mut c = cell("x");
    assert_eq!((occupied_columns(&c), cell_grid_width(&c)), (1, 1));
    c.colspan = 3;
    assert_eq!((occupied_columns(&c), cell_grid_width(&c)), (3, 3));
    c.colspan = 1;
    c.is_duplication = true;
    c.duplication_count = 4;
    assert_eq!(occupied_columns(&c), 4);
    assert_eq!(saturating_product(usize::MAX, 2), usize::MAX);
    assert_eq!(saturating_product(6, 7), 42);
    assert_eq!(saturating_product(usize::MAX, 0), 0);
}

#[test]
fn cells_are_checked_one_by_one() {
    let mut wide = cell("w");
    wide.colspan = 101;
    assert!(validate_cell_specifiers(&[cell("a"), cell("b")]).is_ok());
    let e = validate_cell_specifiers(&[cell("a"), wide]).expect_err("too wide");
    assert_eq!(e.requested, 101);
    assert!(validate_table_limits(&vec![vec![cell("a")], vec![]]).is_ok());
}

#[test]
fn a_reflowed_grid_keeps_the_cells() {
    let rows = grid_reflow(vec![vec![cell("a"), cell("b"), cell("c")], vec![cell("d")]], 2);
    assert_eq!(contents(&rows), vec![vec!["a", "b"], vec!["c", "d"]]);
    let rows = grid_reflow(vec![vec![cell("a"), cell("b"), cell("c")]], 2);
    assert_eq!(contents(&rows), vec![vec!["a", "b"], vec!["c"]]);
}

#[test]
fn only_empty_rows_lose_cells() {
    for ncols in 1..4 {
        for spans in [[1, 1, 1, 1, 1], [3, 1, 1, 2, 1], [1, 3, 3, 1, 1], [4, 1, 2, 2, 1]] {
            let mut cells: Vec<ParsedCell> = Vec::new();
            for (k, span) in spans.iter().enumerate() {
                let mut c = cell(&k.to_string());
                c.rowspan = *span;
                c.duplication_count = 1 + k % 2;
                c.is_duplication = k % 2 == 1;
                cells.push(c);
            }
            let copies = ["0", "1", "1", "2", "3", "3", "4"];
            let mut next = 0;
            for row in grid_reflow(vec![cells], ncols) {
                for c in &row {
                    assert_eq!(c.content, copies[next]);
                    assert!(!c.is_duplication);
                    next += 1;
                }
                if row.is_empty() {
                    next += 1;
                }
            }
            assert_eq!(next, copies.len(), "{spans:?} in {ncols}");
        }
    }
}

// ---------------------------------------------------------------------------
// Separators and specifiers.
// ---------------------------------------------------------------------------

#[test]
fn a_row_closes_when_it_is_full() {
    let mut wide = cell("wide");
    wide.colspan = 3;
    let mut tall = cell("tall");
    tall.rowspan = 2;
    let rows = vec![vec![cell("a"), wide, tall, cell("b"), cell("c"), cell("d")]];
    let laid = grid_reflow(rows, 2);
    assert_eq!(contents(&laid), vec![vec!["a", "wide"], vec!["tall", "b"], vec!["c"], vec!["d"]]);
    for row in laid.iter().filter(|row| !row.is_empty()) {
        let before: usize = row[..row.len() - 1].iter().map(cell_grid_width).sum();
        assert!(before < 2);
    }
}

#[test]
fn a_separator_is_of_its_kind() {
    assert!(matches!(Separator::new("").kind, SepKind::Empty));
    assert!(matches!(Separator::new("|").kind, SepKind::SingleCodepoint('|')));
    assert!(matches!(Separator::new("¦").kind, SepKind::SingleCodepoint('¦')));
    assert!(matches!(Separator::new("||").kind, SepKind::MultiCodepoint));
    assert_eq!(Separator::new(",").single_byte(), Some(b','));
    assert_eq!(Separator::new("¦").single_byte(), None);
    assert_eq!(Separator::new("||").single_byte(), None);
}

#[test]
fn a_separator_of_several_characters_is_not_escaped() {
    let parts = split_multi_char(r"a::b\::c", "::");
    let found: Vec<(&str, usize)> = parts.iter().map(|p| (p.content.as_str(), p.start)).collect();
    assert_eq!(found, vec![("a", 0), (r"b\", 3), ("c", 7)]);
    assert_eq!(split_line("abc", &Separator::new("")).len(), 1);
    assert_eq!(find_first_separator(r"\|a|b", &Separator::new("|")), Some(3));
    assert_eq!(find_first_separator("abc", &Separator::new("|")), None);
}

#[test]
fn positions_are_bytes_of_the_source() {
    let (rows, _) = read("|é |b\n", None).expect("table should parse");
    assert_eq!((rows[0][0].content.as_str(), rows[0][0].start), ("é", 1));
    assert_eq!((rows[0][1].content.as_str(), rows[0][1].start), ("b", 5));
}

#[test]
fn a_specifier_holds_its_parts() {
    let (spec, len) = CellSpecifier::parse("3*.>s", ParseContext::FirstPart);
    assert_eq!(len, 5);
    assert!(spec.is_duplication);
    assert_eq!((spec.duplication_count, spec.colspan, spec.rowspan), (3, 1, 1));
    assert_eq!(spec.valign, Some(VerticalAlignment::Bottom));
    assert_eq!(spec.style, Some(ColumnStyle::Strong));
    let (spec, len) = CellSpecifier::parse("<e", ParseContext::FirstPart);
    assert_eq!((spec.halign, spec.style, len), (
        Some(HorizontalAlignment::Left),
        Some(ColumnStyle::Emphasis),
        2,
    ));
    let (spec, len) = CellSpecifier::parse("2+", ParseContext::InlineContent);
    assert_eq!((spec.colspan, len), (1, 0));
}

#[test]
fn a_line_that_begins_with_a_specifier_begins_a_row() {
    let sep = Separator::new("|");
    assert!(is_new_row_start("a|x", &sep, true));
    assert!(is_new_row_start(".2+|a", &sep, true));
    assert!(!is_new_row_start(".2+|a", &sep, false));
    assert!(!is_new_row_start("|a", &sep, true));
    assert!(!is_new_row_start("text |a", &sep, true));
    assert!(!is_new_row_start("text", &sep, true));
}

// ---------------------------------------------------------------------------
// Comma-separated bodies.
// ---------------------------------------------------------------------------

fn read_csv(text: &str, sep: &str) -> (Vec<Vec<ParsedCell>>, bool) {
    let mut has_header = false;
    let rows = Table::parse_csv_rows_with_positions(
        text,
        &Separator::new(sep),
        &mut has_header,
        10,
    );
    (rows, has_header)
}

#[test]
fn a_quoted_field_may_hold_the_separator() {
    let (rows, has_header) = read_csv("a,b\n\"c, \"\"d\"\"\",e\n", ",");
    assert_eq!(contents(&rows), vec![vec!["a", "b"], vec!["c, \"d\"", "e"]]);
    assert!(!has_header);
    let starts: Vec<usize> = rows.iter().flatten().map(|c| c.start).collect();
    assert_eq!(starts, vec![10, 12, 15, 25]);
}

#[test]
fn fields_stand_where_their_text_does() {
    let text = "a, b \r\nc,\" d\"\r\n\r\n e,,f\n\ng, ,h\n";
    let (rows, _) = read_csv(text, ",");
    let found = contents(&rows);
    let want = vec![vec!["a", "b"], vec!["c", "d"], vec!["e", "", "f"], vec!["g", "", "h"]];
    assert_eq!(found, want);
    for cell in rows.iter().flatten().filter(|c| !c.content.is_empty()) {
        let at = cell.content_start - 10;
        assert_eq!(&text[at..at + cell.content.len()], cell.content, "{cell:?}");
        assert_eq!(cell.end, cell.content_start + cell.content.len() - 1);
    }
    let starts: Vec<usize> = rows.iter().flatten().map(|c| c.start - 10).collect();
    assert_eq!(starts, [0, 2, 7, 10, 17, 20, 21, 24, 26, 28]);
}

#[test]
fn a_blank_line_behind_the_first_record_makes_it_a_header() {
    let (rows, has_header) = read_csv("h1;h2\n\na;b\n", ";");
    assert!(has_header);
    assert_eq!(contents(&rows), vec![vec!["h1", "h2"], vec!["a", "b"]]);
}

#[test]
fn records_may_differ_in_length() {
    let (rows, _) = read_csv("a,b,c\nd\n", ",");
    assert_eq!(contents(&rows), vec![vec!["a", "b", "c"], vec!["d"]]);
}

#[test]
fn fields_are_found_in_the_text() {
    assert_eq!(find_closing_quote(b"ab\"\"c\",d", 0), 5);
    assert_eq!(find_unquoted_field_end(b"ab,cd", 0, 2, b','), 2);
    assert_eq!(skip_to_next_field(b"ab,cd", 0, b','), 3);
    assert_eq!(find_csv_field_position(b"\"a b\",c", 0, "a b", b','), (1, 6));
}

#[test]
fn records_that_were_read_make_the_rows() {
    let records = vec![
        Some(CsvRecord { start: Some(0), fields: vec!["a".to_string(), "b".to_string()] }),
        None,
        Some(CsvRecord { start: Some(5), fields: vec!["c".to_string()] }),
    ];
    let rows = parse_csv_table("a,b\n\nc\n", &records, 0, b',');
    assert_eq!(contents(&rows), vec![vec!["a", "b"], vec!["c"]]);
    assert_eq!(rows[1][0].start, 5);
    assert!(csv_header_implied("a,b\n\nc\n", &records));
}

// ---------------------------------------------------------------------------
// Places in a cell.
// ---------------------------------------------------------------------------

fn on_line_two(column: u32, last: u32, start: usize, end: usize) -> Location {
    Location {
        absolute_start: start,
        absolute_end: end,
        start: Position { line: 2, column },
        end: Position { line: 2, column: last },
    }
}

/// The cell as the grammar hands it on: its places are those of the text without
/// the backslashes.
fn chain_cell() -> Vec<Block<'static>> {
    let raw = |content, location| {
        InlineNode::MonospaceText(Span {
            id: None,
            content: vec![InlineNode::RawText(Text { content, location })],
            location,
        })
    };
    let plain = |content, location| InlineNode::PlainText(Text { content, location });
    vec![Block::Paragraph(Paragraph {
        metadata: BlockMetadata { id: None, anchors: vec![] },
        title: vec![],
        content: vec![
            plain("chain ", on_line_two(2, 7, 6, 11)),
            raw("a|", on_line_two(10, 12, 14, 16)),
            plain(" tail ", on_line_two(14, 19, 18, 23)),
            raw("h|", on_line_two(22, 24, 26, 28)),
            plain(" end", on_line_two(26, 29, 30, 33)),
        ],
        location: on_line_two(2, 29, 6, 33),
    })]
}

fn inline_texts(column: &TableColumn<'_>) -> Vec<(String, u32, u32, usize, usize)> {
    let mut out = Vec::new();
    for block in &column.content {
        let Block::Paragraph(p) = block else { continue };
        for inline in &p.content {
            let (value, loc) = match inline {
                InlineNode::PlainText(t) => (t.content, t.location),
                InlineNode::MonospaceText(m) => match m.content.first() {
                    Some(InlineNode::RawText(r)) => (r.content, r.location),
                    _ => continue,
                },
                _ => continue,
            };
            out.push((
                value.to_string(),
                loc.start.column,
                loc.end.column,
                loc.absolute_start,
                loc.absolute_end,
            ));
        }
    }
    out
}

#[test]
fn escaped_pipe_collapse_does_not_drift_following_locations() {
    let doc = "|===\n|chain `+a\\|+` tail `+h\\|+` end\n|===\n";
    let mut has_header = false;
    let rows = Table::parse_rows_with_positions(
        &doc[5..38],
        &Separator::new("|"),
        true,
        false,
        &mut has_header,
        5,
        None,
    )
    .expect("table should parse");
    let cell = &rows[0][0];
    assert_eq!(cell.content, "chain `+a|+` tail `+h|+` end");
    assert_eq!(cell.start, 6);
    let column = parse_table_cell::<()>(
        &cell.content,
        Some(Ok(chain_cell())),
        doc,
        Position { line: 2, column: 2 },
        cell.start,
        cell,
    )
    .expect("cell");
    let texts = inline_texts(&column);
    let find = |needle: &str| {
        texts
            .iter()
            .find(|(v, ..)| v == needle)
            .unwrap_or_else(|| panic!("no inline with value {needle:?} in {texts:?}"))
    };

    let chain = find("chain ");
    assert_eq!((chain.1, chain.3), (2, 6), "prefix text start: {chain:?}");

    let a = find("a|");
    assert_eq!((a.1, a.2), (10, 13), "first pass content cols: {a:?}");
    assert_eq!((a.3, a.4), (5 + 9, 5 + 12), "first pass content abs: {a:?}");

    let tail = find(" tail ");
    assert_eq!((tail.1, tail.2), (15, 20), "inter-pass text cols: {tail:?}");
    assert_eq!((tail.3, tail.4), (5 + 14, 5 + 19), "inter-pass text abs: {tail:?}");

    let h = find("h|");
    assert_eq!((h.1, h.2), (23, 26), "second pass content cols: {h:?}");
    assert_eq!((h.3, h.4), (5 + 22, 5 + 25), "second pass content abs: {h:?}");

    let end = find(" end");
    assert_eq!((end.1, end.2), (28, 31), "trailing text cols: {end:?}");
    assert_eq!((end.3, end.4), (5 + 27, 5 + 30), "trailing text abs: {end:?}");
}

#[test]
fn escapes_are_found_by_the_source() {
    assert_eq!(escape_collapse_positions("a|b", "a|b and more"), Some(vec![]));
    assert_eq!(escape_collapse_positions("a|b|c", r"a\|b\|c"), Some(vec![1, 3]));
    assert_eq!(escape_collapse_positions("a|b", "a,b"), None);
    assert_eq!(escape_collapse_positions("abc", "ab"), None);
}

#[test]
fn a_mark_stands_on_its_own_line() {
    let input = "x|one\ntwo\\|three";
    let marks = find_marks("one\ntwo|three", input, Position { line: 1, column: 3 }, 2);
    assert_eq!(marks.len(), 1);
    assert_eq!((marks[0].offset, marks[0].line, marks[0].column), (9, 2, 4));
    let mut before = on_line_two(1, 3, 6, 9);
    move_location(&mut before, &marks);
    assert_eq!(before, on_line_two(1, 3, 6, 9));
    let mut behind = on_line_two(5, 9, 10, 15);
    move_location(&mut behind, &marks);
    assert_eq!(behind, on_line_two(6, 10, 11, 16));
}

#[test]
fn a_cell_keeps_its_format() {
    let mut c = cell("x");
    c.colspan = 2;
    c.halign = Some(HorizontalAlignment::Right);
    c.style = Some(ColumnStyle::AsciiDoc);
    assert_eq!(cell_grammar(&c), CellGrammar::Document);
    assert_eq!(cell_grammar(&cell("x")), CellGrammar::TableCell);
    let at = Position { line: 1, column: 1 };
    let column = parse_table_cell::<()>("x", None, "x", at, 0, &c).expect("cell");
    assert!(column.content.is_empty());
    assert_eq!((column.colspan, column.rowspan), (2, 1));
    assert_eq!(column.halign, Some(HorizontalAlignment::Right));
    let failed = parse_table_cell("x", Some(Err("bad")), "x", at, 0, &c);
    assert!(matches!(failed, Err("bad")));
}

//! The rows and cells of tables.

use acdc_parser::model::document::Table;
use acdc_parser::model::{ColumnStyle, HorizontalAlignment, VerticalAlignment};
use acdc_parser::table::limits::occupied_columns;
use acdc_parser::table::rows::count_cell_colspans;
use acdc_parser::table::separator::{count_unescaped_separators, split_escaped, Separator};
use acdc_parser::table::specifier::{CellSpecifier, ParseContext};

#[test]
fn split_escaped_psv_no_escapes() {
    let parts = split_escaped("| cell1 | cell2 |", '|');
    let [p0, p1, p2, p3] = parts.as_slice() else {
        panic!("expected 4 parts, got {}", parts.len());
    };
    assert_eq!(p0.content, "");
    assert_eq!(p1.content, " cell1 ");
    assert_eq!(p2.content, " cell2 ");
    assert_eq!(p3.content, "");
}

#[test]
fn split_escaped_psv_with_escape() {
    let parts = split_escaped(r"| cell with \| pipe | normal |", '|');
    let [p0, p1, p2, p3] = parts.as_slice() else {
        panic!("expected 4 parts, got {}", parts.len());
    };
    assert_eq!(p0.content, "");
    assert_eq!(p1.content, " cell with | pipe ");
    assert_eq!(p2.content, " normal ");
    assert_eq!(p3.content, "");
}

#[test]
fn split_escaped_dsv_no_escapes() {
    let parts = split_escaped("cell1:cell2:cell3", ':');
    let [p0, p1, p2] = parts.as_slice() else {
        panic!("expected 3 parts, got {}", parts.len());
    };
    assert_eq!(p0.content, "cell1");
    assert_eq!(p1.content, "cell2");
    assert_eq!(p2.content, "cell3");
}

#[test]
fn split_escaped_dsv_with_escape() {
    let parts = split_escaped(r"cell with \: colon:normal", ':');
    let [p0, p1] = parts.as_slice() else {
        panic!("expected 2 parts, got {}", parts.len());
    };
    assert_eq!(p0.content, "cell with : colon");
    assert_eq!(p1.content, "normal");
}

#[test]
fn split_escaped_backslash_not_before_separator() {
    let parts = split_escaped(r"cell\n with backslash|next", '|');
    let [p0, p1] = parts.as_slice() else {
        panic!("expected 2 parts, got {}", parts.len());
    };
    assert_eq!(p0.content, r"cell\n with backslash");
    assert_eq!(p1.content, "next");
}

#[test]
fn split_escaped_multiple_escapes() {
    let parts = split_escaped(r"\|start\|middle\|end", '|');
    let [p0] = parts.as_slice() else {
        panic!("expected 1 part, got {}", parts.len());
    };
    assert_eq!(p0.content, "|start|middle|end");
}

#[test]
fn split_escaped_positions_tracked() {
    let parts = split_escaped("ab|cd|ef", '|');
    let [p0, p1, p2] = parts.as_slice() else {
        panic!("expected 3 parts, got {}", parts.len());
    };
    assert_eq!(p0.start, 0);
    assert_eq!(p1.start, 3);
    assert_eq!(p2.start, 6);
}

#[test]
fn trailing_text_becomes_continuation_paragraph_of_last_cell() {
    let input = "| A | B\n\nTrailing\n";
    let mut has_header = false;
    let rows = Table::parse_rows_with_positions(
        input,
        &Separator::new("|"),
        true,
        false,
        &mut has_header,
        0,
        None,
    )
    .expect("table should parse");
    let [row] = rows.as_slice() else {
        panic!("expected 1 row, got {}", rows.len());
    };
    let [a, b] = row.as_slice() else {
        panic!("expected 2 cells, got {}", row.len());
    };
    assert_eq!(a.content, "A");
    assert_eq!(b.content, "B\n\nTrailing");
}

#[test]
fn a_cell_preserves_blank_line_inside_nested_table_content() {
    let input = "a|\n!===\n! Inner A ! Inner B\n\nTrailing in inner cell\n!===\n";
    let mut has_header = false;
    let rows = Table::parse_rows_with_positions(
        input,
        &Separator::new("|"),
        true,
        false,
        &mut has_header,
        0,
        Some(1),
    )
    .expect("table should parse");
    let [row] = rows.as_slice() else {
        panic!("expected 1 row, got {}", rows.len());
    };
    let [cell] = row.as_slice() else {
        panic!("expected 1 cell, got {}", row.len());
    };
    assert_eq!(
        cell.content,
        "!===\n! Inner A ! Inner B\n\nTrailing in inner cell\n!===",
    );
}

#[test]
fn adjacent_anchor_recovery_handles_multibyte_whitespace() {
    let input = ".2+|food\u{00A0}.2+|apple |10\n";
    let mut has_header = false;
    let rows = Table::parse_rows_with_positions(
        input,
        &Separator::new("|"),
        true,
        false,
        &mut has_header,
        0,
        None,
    )
    .expect("table should parse");
    assert_eq!(rows[0].len(), 3, "expected 3 cells: food, apple, 10");
    assert_eq!(rows[0][0].content, "food");
    assert_eq!(rows[0][0].rowspan, 2);
    assert_eq!(rows[0][1].content, "apple");
    assert_eq!(rows[0][1].rowspan, 2);
}

#[test]
fn star_rating_syntax_parses_as_duplication_spec() {
    let input = "|rated 5*|next\n";
    let mut has_header = false;
    let rows = Table::parse_rows_with_positions(
        input,
        &Separator::new("|"),
        true,
        false,
        &mut has_header,
        0,
        None,
    )
    .expect("table should parse");
    let row = &rows[0];
    assert_eq!(
        row.first().map(|c| c.content.as_str()),
        Some("rated"),
        "`5*` is a duplication specifier, not part of the cell text",
    );
    let next_copies = row.iter().filter(|c| c.content == "next").count();
    assert_eq!(next_copies, 5, "`5*` duplicates `next` into 5 cells");
    assert!(
        row.iter().all(|c| c.duplication_count == 1),
        "expanded copies carry duplication_count 1"
    );
}

#[test]
fn version_number_syntax_parses_as_colspan_spec() {
    let input = "|5G coverage 2+|GB\n";
    let mut has_header = false;
    let rows = Table::parse_rows_with_positions(
        input,
        &Separator::new("|"),
        true,
        false,
        &mut has_header,
        0,
        None,
    )
    .expect("table should parse");
    assert_eq!(
        rows[0].first().map(|c| c.content.as_str()),
        Some("5G coverage"),
        "`2+` is a colspan specifier, not part of the cell text",
    );
    assert_eq!(
        rows[0].get(1).map(|c| c.colspan),
        Some(2),
        "next cell spans two columns via `2+`",
    );
}

#[test]
fn recovery_still_fires_on_legitimate_double_anchor() {
    let input = ".2+|food .2+|apple |10\n";
    let mut has_header = false;
    let rows = Table::parse_rows_with_positions(
        input,
        &Separator::new("|"),
        true,
        false,
        &mut has_header,
        0,
        None,
    )
    .expect("table should parse");
    assert_eq!(rows[0].len(), 3, "expected 3 cells: food, apple, 10");
    assert_eq!(rows[0][0].content, "food");
    assert_eq!(rows[0][0].rowspan, 2);
    assert_eq!(rows[0][1].content, "apple");
    assert_eq!(rows[0][1].rowspan, 2);
}

#[test]
fn multi_line_anchor_cell_with_ncols() {
    let input =
        ".2+|food\n|apple .2+|10\n|banana\n.3+|drink |cola |30\n|tea |15\n|coffee |12\n";
    let mut has_header = false;
    let rows = Table::parse_rows_with_positions(
        input,
        &Separator::new("|"),
        true,
        false,
        &mut has_header,
        0,
        Some(3),
    )
    .expect("table should parse");
    assert!(
        rows.len() >= 2,
        "expected at least 2 rows, got {}",
        rows.len()
    );
    assert_eq!(
        rows[0].len(),
        3,
        "row 0 should have 3 cells: food, apple, 10"
    );
    assert_eq!(rows[0][0].content, "food");
    assert_eq!(rows[0][0].rowspan, 2);
    assert_eq!(rows[0][1].content, "apple");
    assert_eq!(rows[0][2].content, "10");
    assert_eq!(rows[0][2].rowspan, 2);
    assert_eq!(rows[1].len(), 1, "row 1 should have 1 cell: banana");
    assert_eq!(rows[1][0].content, "banana");
}

#[test]
fn a_block_cell_in_non_last_column_keeps_row_intact() {
    let input = "|F |A\na|\n- x\n- y\n|D\n";
    let mut has_header = false;
    let rows = Table::parse_rows_with_positions(
        input,
        &Separator::new("|"),
        true,
        false,
        &mut has_header,
        0,
        Some(4),
    )
        .expect("table should parse");
    let shape: Vec<usize> = rows.iter().map(std::vec::Vec::len).collect();
    assert_eq!(rows.len(), 1, "expected one 4-col row, got shape {shape:?}");
    assert_eq!(rows[0].len(), 4, "row should have 4 cells: F, A, a|, D");
    assert_eq!(rows[0][0].content, "F");
    assert_eq!(rows[0][1].content, "A");
    assert!(
        rows[0][2].content.contains('x') && rows[0][2].content.contains('y'),
        "col2 is the a| list, got {:?}",
        rows[0][2].content
    );
    assert_eq!(rows[0][3].content, "D");
}

#[test]
fn mid_row_alignment_only_spec_recognized() {
    let mut has_header = false;
    let rows = Table::parse_rows_with_positions(
        "|a ^|b |c\n",
        &Separator::new("|"),
        true,
        false,
        &mut has_header,
        0,
        Some(3),
    )
        .expect("table should parse");
    assert_eq!(rows.len(), 1, "one 3-col row");
    assert_eq!(rows[0].len(), 3);
    assert_eq!(rows[0][0].content, "a");
    assert_eq!(rows[0][1].content, "b");
    assert_eq!(
        rows[0][1].halign,
        Some(HorizontalAlignment::Center),
        "cell b centered via mid-row `^`"
    );
    assert_eq!(rows[0][2].content, "c");
}

#[test]
fn grid_reflow_ncols_honors_duplication_width() {
    let mut has_header = false;
    let rows = Table::parse_rows_with_positions(
        "3*|Same\n|X |Y |Z\n",
        &Separator::new("|"),
        true,
        false,
        &mut has_header,
        0,
        None,
    )
        .expect("table should parse");
    let shape: Vec<usize> = rows.iter().map(std::vec::Vec::len).collect();
    assert_eq!(rows.len(), 2, "2 rows (Same×3, then X/Y/Z); got {shape:?}");
    assert_eq!(
        rows[0]
            .iter()
            .map(|c| c.content.as_str())
            .collect::<Vec<_>>(),
        vec!["Same", "Same", "Same"],
        "the `3*` dup is expanded into 3 independent Same cells"
    );
    assert!(rows[0].iter().all(|c| c.duplication_count == 1));
    assert_eq!(
        rows[1]
            .iter()
            .map(|c| c.content.as_str())
            .collect::<Vec<_>>(),
        vec!["X", "Y", "Z"]
    );
}

#[test]
fn grid_reflow_full_width_rowspan_discards_one_phantom_filler() {
    let mut has_header = false;
    let rows = Table::parse_rows_with_positions(
        "2.2+|Big\n|a |b\n",
        &Separator::new("|"),
        true,
        false,
        &mut has_header,
        0,
        Some(2),
    )
        .expect("table should parse");
    let shape: Vec<usize> = rows.iter().map(std::vec::Vec::len).collect();
    assert_eq!(rows.len(), 3, "Big row, phantom row, b row; got {shape:?}");
    assert_eq!(rows[0][0].content, "Big");
    assert!(
        rows[1].is_empty(),
        "grid row 1 is the emitted phantom Big spans"
    );
    let contents: Vec<&str> = rows.iter().flatten().map(|c| c.content.as_str()).collect();
    assert!(contents.contains(&"Big") && contents.contains(&"b"));
    assert!(!contents.contains(&"a"), "phantom filler `a` is discarded");
}

#[test]
fn grid_reflow_oversized_rowspan_is_bounded() {
    let mut has_header = false;
    let rows = Table::parse_rows_with_positions(
        ".999+|X\n|Y\n",
        &Separator::new("|"),
        true,
        false,
        &mut has_header,
        0,
        Some(1),
    )
        .expect("table should parse");
    assert!(
        rows.len() <= 2,
        "row count bounded by cells (2), not rowspan (999); got {}",
        rows.len()
    );
    assert_eq!(rows[0][0].content, "X");
}

#[test]
fn implicit_ncols_uses_first_logical_row_not_physical_line() {
    let mut has_header = false;
    let rows = Table::parse_rows_with_positions(
        "|a |b is\nlong |c\n",
        &Separator::new("|"),
        true,
        false,
        &mut has_header,
        0,
        None,
    )
        .expect("table should parse");
    let shape: Vec<usize> = rows.iter().map(std::vec::Vec::len).collect();
    assert_eq!(rows.len(), 1, "one 3-col logical row; got {shape:?}");
    assert_eq!(rows[0].len(), 3, "cells a / (b is long) / c");
    assert_eq!(rows[0][0].content, "a");
    assert_eq!(rows[0][2].content, "c");
}

#[test]
fn implicit_ncols_wrapped_first_cell_counts_continuation() {
    let mut has_header = false;
    let rows = Table::parse_rows_with_positions(
        "| header\nmore | Col2\n\n| x | y\n",
        &Separator::new("|"),
        true,
        false,
        &mut has_header,
        0,
        None,
    )
        .expect("table should parse");
    let shape: Vec<usize> = rows.iter().map(std::vec::Vec::len).collect();
    assert_eq!(
        rows.len(),
        2,
        "2 rows of 2 cols (ncols=2), not 4×1; got {shape:?}"
    );
    assert_eq!(
        rows[1]
            .iter()
            .map(|c| c.content.as_str())
            .collect::<Vec<_>>(),
        vec!["x", "y"]
    );
}

#[test]
fn continuation_line_flush_span_spec_is_recovered() {
    let mut has_header = false;
    let rows = Table::parse_rows_with_positions(
        "|Long desc\nwraps here 2+|Wide\n|a |b |c\n",
        &Separator::new("|"),
        true,
        false,
        &mut has_header,
        0,
        None,
    )
        .expect("table should parse");
    let shape: Vec<usize> = rows.iter().map(std::vec::Vec::len).collect();
    assert_eq!(rows.len(), 2, "2 rows (ncols=3); got {shape:?}");
    assert_eq!(rows[0].len(), 2, "wrapped desc + Wide");
    assert!(
        !rows[0][0].content.contains("2+"),
        "the `2+` spec must not leak into the wrapped cell content: {:?}",
        rows[0][0].content
    );
    assert_eq!(rows[0][1].content, "Wide");
    assert_eq!(
        rows[0][1].colspan, 2,
        "Wide gets colspan 2 from the recovered `2+`"
    );
    assert_eq!(
        rows[1]
            .iter()
            .map(|c| c.content.as_str())
            .collect::<Vec<_>>(),
        vec!["a", "b", "c"]
    );
}

#[test]
fn align_first_with_span_not_stolen_mid_row() {
    for (src, marker, next) in [
        ("|base\nmore ^2+|exp\n", "^2+", "exp"),
        ("|Speedup was >2*|confirmed\n", ">2*", "confirmed"),
    ] {
        let mut has_header = false;
        let rows = Table::parse_rows_with_positions(
            src,
            &Separator::new("|"),
            true,
            false,
            &mut has_header,
            0,
            Some(2),
        )
        .expect("table should parse");
        assert!(
            rows[0][0].content.contains(marker),
            "align-first `{marker}` must stay content in {src:?}: got {:?}",
            rows[0][0].content
        );
        assert_eq!(rows[0][1].content, next);
        assert_eq!(
            rows[0][1].colspan, 1,
            "`{marker}` must not span the next cell"
        );
        assert_eq!(
            rows[0][1].duplication_count, 1,
            "`{marker}` must not duplicate the next cell"
        );
    }
}

#[test]
fn mid_row_repeated_align_run_stays_content() {
    for run in ["<<", "^^", ">>", "<>"] {
        let mut has_header = false;
        let src = format!("|foo {run}|bar\n");
        let rows = Table::parse_rows_with_positions(
            &src,
            &Separator::new("|"),
            true,
            false,
            &mut has_header,
            0,
            Some(2),
        )
        .expect("table should parse");
        assert_eq!(
            rows[0][0].content,
            format!("foo {run}"),
            "run `{run}` must stay in cell content, not be deleted"
        );
        assert_eq!(rows[0][1].content, "bar");
        assert!(
            rows[0][1].halign.is_none(),
            "cell 2 gets no spurious alignment from `{run}`"
        );
    }
}

#[test]
fn mid_row_align_then_digit_stays_content() {
    for tok in ["<5", "^100", ">50"] {
        let mut has_header = false;
        let src = format!("|latency {tok}|ms\n");
        let rows = Table::parse_rows_with_positions(
            &src,
            &Separator::new("|"),
            true,
            false,
            &mut has_header,
            0,
            Some(2),
        )
        .expect("table should parse");
        assert_eq!(
            rows[0][0].content,
            format!("latency {tok}"),
            "`{tok}` must stay in cell content, not be deleted"
        );
        assert_eq!(rows[0][1].content, "ms");
        assert!(
            rows[0][1].halign.is_none(),
            "cell 2 gets no spurious alignment from `{tok}`"
        );
    }
}

#[test]
fn cell_interior_span_dup_prefix_is_literal_content() {
    for (src, kept, colspan, rowspan) in [
        ("| 2+2 | z\n", "2+2", 1, 1),
        ("| 3*n | z\n", "3*n", 1, 1),
        ("| .2+r | z\n", ".2+r", 1, 1),
        ("| 2.3+w | z\n", "2.3+w", 1, 1),
    ] {
        let mut has_header = false;
        let rows = Table::parse_rows_with_positions(
            src,
            &Separator::new("|"),
            true,
            false,
            &mut has_header,
            0,
            Some(2),
        )
        .expect("table should parse");
        assert_eq!(
            rows[0][0].content, kept,
            "interior `{kept}` must stay intact, not be parsed as a spec"
        );
        assert_eq!(
            rows[0][0].colspan, colspan,
            "no phantom colspan from `{kept}`"
        );
        assert_eq!(
            rows[0][0].rowspan, rowspan,
            "no phantom rowspan from `{kept}`"
        );
        assert_eq!(rows[0][1].content, "z");
    }
}

#[test]
fn inline_a_cell_style_after_first_cell() {
    let input = "a| first a| second a| third\n";
    let mut has_header = false;
    let rows = Table::parse_rows_with_positions(
        input,
        &Separator::new("|"),
        true,
        false,
        &mut has_header,
        0,
        None,
    )
    .expect("table should parse");
    assert_eq!(rows.len(), 1, "expected 1 row");
    assert_eq!(rows[0].len(), 3, "expected 3 cells, got {}", rows[0].len());
    assert_eq!(rows[0][0].content.trim(), "first");
    assert_eq!(rows[0][1].content.trim(), "second");
    assert_eq!(rows[0][2].content.trim(), "third");
    for (i, cell) in rows[0].iter().enumerate() {
        assert_eq!(
            cell.style,
            Some(ColumnStyle::AsciiDoc),
            "cell {i} must have AsciiDoc style",
        );
    }
}

#[test]
fn no_recovery_on_trailing_a_in_multiline_continuation_text() {
    let input = "|some text ending in a|next\n";
    let mut has_header = false;
    let rows = Table::parse_rows_with_positions(
        input,
        &Separator::new("|"),
        true,
        false,
        &mut has_header,
        0,
        None,
    )
    .expect("table should parse");
    assert_eq!(
        rows[0].first().map(|c| c.content.as_str()),
        Some("some text ending in a"),
        "natural-text trailing `a` must NOT be stolen as next cell's style",
    );
    assert!(
        rows[0].get(1).is_some_and(|c| c.style.is_none()),
        "next cell must have no style (a was content, not spec)",
    );
}

#[test]
fn count_unescaped_separators_skips_escaped_pipe() {
    assert_eq!(
        count_unescaped_separators("\\| Col1 \\| Col2 \\|", &Separator::new("|")),
        0,
        "all 3 pipes are escaped — must count 0",
    );
    assert_eq!(
        count_unescaped_separators("| real | sep |", &Separator::new("|")),
        3,
        "all 3 pipes unescaped — must count 3",
    );
    assert_eq!(
        count_unescaped_separators("\\| escaped | unescaped", &Separator::new("|")),
        1,
        "first pipe escaped, second not — must count 1",
    );
    assert_eq!(
        count_unescaped_separators("\\! nested \\!", &Separator::new("!")),
        0,
        "bang separator escape must also work",
    );
}

#[test]
fn count_cell_colspans_does_not_overcount_plain_m_at_line_end() {
    let line = "a| b| m|";
    let n = count_cell_colspans(line, &Separator::new("|"), true);
    assert_eq!(
        n, 3,
        "trailing `m|` is plain content + delimiter, not continuation cell; \
         over-count by 1 breaks multi-line row collection (got {n})",
    );
}

#[test]
fn count_cell_colspans_counts_standalone_a_pipe_as_one() {
    let n = count_cell_colspans("a|", &Separator::new("|"), true);
    assert_eq!(n, 1, "standalone `a|` is a continuation cell (got {n})");
}

#[test]
fn count_cell_colspans_matches_parse_row_for_inline_span_style() {
    let line = "|2+ a|";
    let count = count_cell_colspans(line, &Separator::new("|"), true);
    let mut has_header = false;
    let rows = Table::parse_rows_with_positions(
        line,
        &Separator::new("|"),
        true,
        false,
        &mut has_header,
        0,
        None,
    )
    .expect("table should parse");
    let parsed_colspan_sum: usize = rows[0].iter().map(|c| c.colspan).sum();
    assert_eq!(
        count, parsed_colspan_sum,
        "count_cell_colspans({line:?}) must equal sum of parse_row colspans \
         (got count={count}, parse_row sum={parsed_colspan_sum})"
    );
    assert_eq!(
        count, 2,
        "interior `2+` is content (colspan 1) + style-`a` cell"
    );
}

#[test]
fn column_accounting_sites_agree_for_every_spec_shape() {
    let sep = Separator::new("|");
    let cases: &[(&str, usize)] = &[
        ("| a | b", 2),
        ("2+| a | b", 3),
        ("3*| same", 3),
        ("2*| a | b", 3),
        ("100*| same", 100),
        (".2+| a | b", 2),
        ("^2+| a", 2),
        ("3*s| a", 3),
        ("2.3+| a", 2),
    ];
    for (line, expected) in cases {
        let counted = count_cell_colspans(line, &sep, true);
        let mut has_header = false;
        let rows =
            Table::parse_rows_with_positions(line, &sep, true, false, &mut has_header, 0, None)
            .expect("table should parse");
        let occupied: usize = rows[0].iter().map(occupied_columns).sum();
        assert_eq!(
            counted, occupied,
            "{line:?}: the pre-parse count ({counted}) and the post-parse \
             occupancy ({occupied}) must agree"
        );
        assert_eq!(
            occupied, *expected,
            "{line:?}: expected {expected} occupied columns, got {occupied}"
        );
    }
}

#[test]
fn duplication_cells_do_not_merge_following_rows() {
    let mut has_header = false;
    let input = "4*| a\n4*| b\n4*| c\n";
    let rows = Table::parse_rows_with_positions(
        input,
        &Separator::new("|"),
        true,
        false,
        &mut has_header,
        0,
        Some(4),
    )
    .expect("table should parse");
    assert_eq!(rows.len(), 3, "three `4*` lines are three rows, got {rows:?}");
    for row in &rows {
        let occupied: usize = row.iter().map(occupied_columns).sum();
        assert_eq!(occupied, 4, "each row fills the declared 4 columns");
    }
}

#[test]
fn span_dup_recovery_preserves_cur_start_byte_offset() {
    let input = "a| first 2+| second";
    let mut has_header = false;
    let rows = Table::parse_rows_with_positions(
        input,
        &Separator::new("|"),
        true,
        false,
        &mut has_header,
        0,
        None,
    )
    .expect("table should parse");
    assert_eq!(rows.len(), 1);
    assert_eq!(
        rows[0].len(),
        2,
        "expected 2 cells (after 'a' row spec), got {}",
        rows[0].len()
    );
    let c0 = &rows[0][0];
    assert_eq!(c0.content.trim(), "first");
    assert_eq!(c0.start, 3, "cell 0 'first' start must be byte 3");
    let c1 = &rows[0][1];
    assert_eq!(c1.content.trim(), "second");
    assert_eq!(
        c1.colspan, 2,
        "cell 1 must have colspan=2 (from inline '2+' spec)"
    );
    assert_eq!(
        c1.start, 13,
        "cell 1 'second' content_start must be byte 13 (was {})",
        c1.start,
    );
}

#[test]
fn is_style_only_recovery_preserves_cur_start_byte_offset() {
    let input = "a| first a| second";
    let mut has_header = false;
    let rows = Table::parse_rows_with_positions(
        input,
        &Separator::new("|"),
        true,
        false,
        &mut has_header,
        0,
        None,
    )
    .expect("table should parse");
    assert_eq!(rows.len(), 1, "expected 1 row");
    assert_eq!(rows[0].len(), 2, "expected 2 cells, got {}", rows[0].len());

    let c0 = &rows[0][0];
    assert_eq!(c0.content.trim(), "first");
    assert_eq!(
        c0.start, 3,
        "cell 0 'first' content_start must be byte 3 (was {})",
        c0.start,
    );

    let c1 = &rows[0][1];
    assert_eq!(c1.content.trim(), "second");
    assert_eq!(
        c1.start, 12,
        "cell 1 'second' content_start must be byte 12 (was {})",
        c1.start,
    );
    assert_eq!(c0.style, Some(ColumnStyle::AsciiDoc));
    assert_eq!(c1.style, Some(ColumnStyle::AsciiDoc));
}

#[test]
fn cell_specifier_accepts_span_first_alignment() {
    let (sf, _) = CellSpecifier::parse("2+^", ParseContext::FirstPart);
    assert_eq!(sf.colspan, 2);
    assert_eq!(sf.halign, Some(HorizontalAlignment::Center));
    let (af, _) = CellSpecifier::parse("^2+", ParseContext::FirstPart);
    assert_eq!((af.colspan, af.halign), (sf.colspan, sf.halign));

    let (sf, _) = CellSpecifier::parse(".3+^.^", ParseContext::FirstPart);
    assert_eq!(sf.rowspan, 3);
    assert_eq!(sf.halign, Some(HorizontalAlignment::Center));
    assert_eq!(sf.valign, Some(VerticalAlignment::Middle));
    let (af, _) = CellSpecifier::parse("^.^.3+", ParseContext::FirstPart);
    assert_eq!(
        (af.rowspan, af.halign, af.valign),
        (sf.rowspan, sf.halign, sf.valign)
    );

    let (sf, _) = CellSpecifier::parse("2.3+>.<", ParseContext::FirstPart);
    assert_eq!((sf.colspan, sf.rowspan), (2, 3));
    assert_eq!(sf.halign, Some(HorizontalAlignment::Right));
    assert_eq!(sf.valign, Some(VerticalAlignment::Top));

    let (sf, len) = CellSpecifier::parse("2+^m", ParseContext::FirstPart);
    assert_eq!(sf.colspan, 2);
    assert_eq!(sf.halign, Some(HorizontalAlignment::Center));
    assert!(sf.style.is_some());
    assert_eq!(len, 4);
}

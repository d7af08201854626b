//! Where cells and what stands in them are found in the source.

use acdc_parser::model::document::Table;
use acdc_parser::model::{ColumnStyle, HorizontalAlignment, Location, Position, VerticalAlignment};
use acdc_parser::table::escape::{find_marks, move_location};
use acdc_parser::table::limits::occupied_columns;
use acdc_parser::table::row::ParsedCell;
use acdc_parser::table::rows::count_cell_colspans;
use acdc_parser::table::separator::{split_line, Separator};
use acdc_parser::table::specifier::{CellSpecifier, ParseContext};

fn row_of(line: &str) -> Vec<ParsedCell> {
    Table::parse_row_with_positions(&[line], &Separator::new("|"), true, 0)
}

#[test]
fn texts_that_are_written_with_escapes_are_read_back() {
    let texts = ["a|b", "", r"c\d", "||", "h\u{e9}"];
    let line: Vec<String> = texts.iter().map(|t| t.replace('|', r"\|")).collect();
    let parts = split_line(&line.join("|"), &Separator::new("|"));
    let found: Vec<&str> = parts.iter().map(|p| p.content.as_str()).collect();
    assert_eq!(found, texts);
    let starts: Vec<usize> = parts.iter().map(|p| p.start).collect();
    assert_eq!(starts, vec![0, 5, 6, 10, 15]);
}

#[test]
fn a_text_that_ends_in_a_backslash_takes_the_separator_in() {
    let parts = split_line(r"a\|b", &Separator::new("|"));
    assert_eq!(parts.len(), 1);
    assert_eq!(parts[0].content, "a|b");
}

#[test]
fn cells_stand_where_they_say() {
    let line = "|a |  b c |h\u{e9}|d";
    let cells = row_of(line);
    assert_eq!(cells.len(), 4);
    for cell in &cells {
        let end = cell.content_start + cell.content.len();
        assert_eq!(&line[cell.content_start..end], cell.content);
    }
}

#[test]
fn lines_of_a_row_follow_each_other() {
    let lines = ["|one", "more", "|two"];
    let cells = Table::parse_row_with_positions(&lines, &Separator::new("|"), true, 10);
    let found: Vec<(&str, usize)> = cells.iter().map(|c| (c.content.as_str(), c.start)).collect();
    assert_eq!(found, vec![("one\nmore", 11), ("two", 21)]);
}

#[test]
fn every_cell_stands_in_the_body() {
    let bodies = [
        "|a |b\n|c |d\n",
        "|a\n|b\n\nmore of b\n",
        "2*|x\n.2+|y\n|z",
        "\n|a\n",
        "no separator at all",
        "|",
        "",
    ];
    for body in bodies {
        for ncols in [None, Some(1), Some(2)] {
            let mut has_header = false;
            let rows = Table::parse_rows_with_positions(
                body,
                &Separator::new("|"),
                true,
                false,
                &mut has_header,
                7,
                ncols,
            )
            .expect("rows");
            for cell in rows.iter().flatten() {
                for at in [cell.start, cell.content_start, cell.end] {
                    assert!((7..=7 + body.len()).contains(&at), "{body:?}: {cell:?}");
                }
            }
        }
    }
}

fn read(body: &str, sep: &str, base: usize, ncols: Option<usize>) -> Vec<Vec<ParsedCell>> {
    let mut has_header = false;
    let sep = Separator::new(sep);
    let is_psv = sep.raw == "|";
    let is_csv = sep.raw == ",";
    Table::parse_rows_with_positions(body, &sep, is_psv, is_csv, &mut has_header, base, ncols)
        .expect("rows")
}

fn starts(body: &str) -> Vec<(String, usize, usize)> {
    let rows = read(body, "|", 0, None);
    let cells = rows.into_iter().flatten();
    cells.map(|c| (c.content, c.start, c.content_start)).collect()
}

fn at(content: &str, start: usize, content_start: usize) -> (String, usize, usize) {
    (content.to_string(), start, content_start)
}

#[test]
fn all_bytes_before_a_line_are_counted() {
    assert_eq!(starts("  \n|a\n"), [at("a", 4, 4)]);
    assert_eq!(starts("|a  \n|b"), [at("a", 1, 1), at("b", 6, 6)]);
    assert_eq!(starts("|a\r\n|b\r\n"), [at("a", 1, 1), at("b", 5, 5)]);
    assert_eq!(starts("|\r\nlong  \r\n|b"), [at("long", 1, 3), at("b", 12, 12)]);
}

#[test]
fn the_text_of_a_cell_begins_where_it_says() {
    let bodies = [
        "|a |b\n|c |d\n",
        "|\nbehind\n|b\n\nmore of b\n",
        "  \n|a  \r\n\r\n|h\u{e9} \\| x\r\n| \\|y",
        "2*|x\n.2+|y\n|z",
    ];
    for body in bodies {
        for ncols in [None, Some(1), Some(2)] {
            for cell in read(body, "|", 9, ncols).iter().flatten() {
                if let Some(first) = cell.content.chars().next() {
                    let mut found = body[cell.content_start - 9..].chars();
                    let c = found.next().expect("a character");
                    let escaped = c == '\\' && first == '|' && found.next() == Some('|');
                    assert!(c == first || escaped, "{body:?}: {cell:?}");
                }
            }
        }
    }
}

#[test]
fn escapes_before_a_text_are_counted() {
    let body = "\\\tx\ty\n \\\t \\\tz\tw";
    let rows = read(body, "\t", 5, None);
    let found: Vec<(&str, usize)> =
        rows.iter().flatten().map(|c| (c.content.as_str(), c.content_start - 5)).collect();
    assert_eq!(found, [("x", 2), ("y", 4), ("z", 12), ("w", 14)]);
    for (content, at) in found {
        assert!(body[at..].starts_with(content));
    }
}

#[test]
fn parts_give_the_line_back() {
    for line in ["", "a", "a|b", r"\|a\|b|c\d|", "||", r"\\|x"] {
        let parts = split_line(line, &Separator::new("|"));
        let texts: Vec<String> = parts.iter().map(|p| p.content.replace('|', r"\|")).collect();
        assert_eq!(texts.join("|"), line);
        for (part, text) in parts.iter().zip(&texts) {
            assert!(line[part.start..].starts_with(text.as_str()), "{line:?}");
        }
    }
    for line in ["", "a::b", "::a:::b::", ":"] {
        let parts = split_line(line, &Separator::new("::"));
        let texts: Vec<&str> = parts.iter().map(|p| p.content.as_str()).collect();
        assert_eq!(texts.join("::"), line);
    }
}

#[test]
fn a_violation_stands_where_its_cell_does() {
    for base in [0, 10] {
        for (body, at) in [("\n101*|x", 6), ("|a\n  101+|b", 10), ("  \n|a 101*|x\r\n", 11)] {
            for ncols in [None, Some(2)] {
                let mut has_header = false;
                let sep = Separator::new("|");
                let refused = Table::parse_rows_with_positions(
                    body,
                    &sep,
                    true,
                    false,
                    &mut has_header,
                    base,
                    ncols,
                );
                let e = refused.expect_err("too many");
                assert_eq!((e.requested, e.start, e.end), (101, base + at, base + at), "{body:?}");
            }
        }
    }
}

#[test]
fn another_base_shifts_the_places() {
    let bodies = [
        ("|a |b\n|c\n\nmore\n|d\n", "|"),
        ("3*|x\n.2+|y\n|z\r\n", "|"),
        ("a:b\nc:d\n", ":"),
        ("a,\"b,c\"\nd,\n", ","),
    ];
    for (body, sep) in bodies {
        let here = read(body, sep, 0, None);
        let mut there = read(body, sep, 1000, None);
        assert!(!there.is_empty());
        for cell in there.iter_mut().flatten() {
            cell.start -= 1000;
            cell.content_start -= 1000;
            cell.end -= 1000;
        }
        assert_eq!(format!("{here:?}"), format!("{there:?}"), "{body:?}");
    }
}

#[test]
fn moved_locations_hold_the_text() {
    let (text, input, offset) = ("a|b|\u{e9}d", "xx|a\\|b\\|\u{e9}d|", 3);
    let base = Position { line: 1, column: 4 };
    let marks = find_marks(text, input, base, offset);
    assert_eq!(marks.len(), 2);
    for first in 0..text.len() {
        for end in first + 1..=text.len() {
            let mut place = Location {
                absolute_start: offset + first,
                absolute_end: offset + end,
                start: base,
                end: base,
            };
            move_location(&mut place, &marks);
            assert!(place.absolute_start < place.absolute_end);
            let source = input.as_bytes();
            assert_eq!(source[place.absolute_start], text.as_bytes()[first]);
            assert_eq!(source[place.absolute_end - 1], text.as_bytes()[end - 1]);
        }
    }
}

#[test]
fn an_empty_location_on_an_escape_is_turned_round() {
    let base = Position { line: 1, column: 1 };
    let marks = find_marks("|a", r"\|a", base, 0);
    let mut place = Location { absolute_start: 0, absolute_end: 0, start: base, end: base };
    move_location(&mut place, &marks);
    assert_eq!((place.absolute_start, place.absolute_end), (1, 0));
}

#[test]
fn columns_are_counted_alike() {
    let cases = [
        ("|a |b", 2),
        ("2+|a |b", 3),
        ("3*|x", 3),
        ("^.>2+s|a |b |c", 4),
        ("|a 2+|b", 3),
        ("|a 3*|b |c", 5),
        ("|a 2+|", 3),
        ("|x a|", 2),
    ];
    for (line, columns) in cases {
        let taken: usize = row_of(line).iter().map(occupied_columns).sum();
        assert_eq!(taken, columns, "{line:?}");
        assert_eq!(count_cell_colspans(line, &Separator::new("|"), true), columns, "{line:?}");
    }
    assert_eq!(row_of("|x |").len(), 2);
    assert_eq!(count_cell_colspans("|x |", &Separator::new("|"), true), 1);
    assert_eq!(count_cell_colspans("a", &Separator::new("|"), true), 0);
    assert_eq!(count_cell_colspans("a:b:", &Separator::new(":"), false), 2);
}

#[test]
fn alignments_may_stand_on_either_side_of_a_span() {
    for content in ["^.>2+srest", "2+^.>srest"] {
        let (spec, len) = CellSpecifier::parse(content, ParseContext::FirstPart);
        assert_eq!(len, 6, "{content}");
        assert_eq!((spec.colspan, spec.rowspan), (2, 1));
        assert_eq!(spec.halign, Some(HorizontalAlignment::Center));
        assert_eq!(spec.valign, Some(VerticalAlignment::Bottom));
        assert_eq!(spec.style, Some(ColumnStyle::Strong));
    }
}

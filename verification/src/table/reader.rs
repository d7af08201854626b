//! Reading the body of a table, whatever its format.

use crate::model::document::Table;
use crate::table::csv_rows::{
    csv_implies_header, csv_records, csv_rows, csv_separator, parse_csv_rows,
};
use crate::table::limits::{
    cell_within_limits, law_limits, lemma_cells_within, specifiers_violation, table_violation,
    validate_table_limits, within_limits, LimitV, TableLimitViolation, MAX_TABLE_COLUMNS,
};
use crate::table::row::{consecutive, offsets_of, parse_row, row_cells, CellV, ParsedCell};
use crate::table::rows::{
    body_rows, checked, grouped_body, header_after, law_asked_header, law_blank_lines, parse_body,
    too_many_columns, Layout,
};
use crate::table::separator::Separator;
use crate::text::{blen, is_ws, lemma_index_from, lines_blen, lines_spec};
use vstd::prelude::*;
use vstd::string::*;
use vstd::utf8::encode_utf8;

verus! {

/// The rows of a table body that begins at `offset`, or the bound that the table
/// exceeds. `is_csv` tells that it is in comma-separated form.
pub open spec fn table_rows(text: Seq<char>, offset: int, is_csv: bool, lay: Layout) -> Result<
    Seq<Seq<CellV>>,
    LimitV,
> {
    if lay.ncols is Some && lay.ncols->Some_0 > MAX_TABLE_COLUMNS {
        Err(too_many_columns(lay.ncols->Some_0, offset))
    } else if is_csv {
        checked(csv_rows(text, lay.sep, offset))
    } else {
        body_rows(text, offset, lay)
    }
}

/// Whether the first row is a header, where it was asked for or not.
pub open spec fn table_header(asked: bool, text: Seq<char>, is_csv: bool, lay: Layout) -> bool {
    if lay.ncols is Some && lay.ncols->Some_0 > MAX_TABLE_COLUMNS {
        asked
    } else if is_csv {
        asked || csv_implies_header(
            encode_utf8(text),
            csv_records(text, csv_separator(lay.sep)),
        )
    } else {
        header_after(asked, lines_spec(text), lay.sep, lay.is_psv)
    }
}

// ---------------------------------------------------------------------------
// Laws.
// ---------------------------------------------------------------------------

/// A table that is read is within its bounds, whatever was written: at most so
/// many rows, cells in a row, columns and rows that a cell spans, and copies.
pub proof fn law_rows_within_limits(text: Seq<char>, offset: int, is_csv: bool, lay: Layout)
    ensures
        table_rows(text, offset, is_csv, lay) matches Ok(rows) ==> within_limits(rows),
{
    match table_rows(text, offset, is_csv, lay) {
        Ok(rows) => {
            assert(table_violation(rows) is None);
            law_limits(rows);
        },
        Err(_) => {},
    }
}

/// A cell that asks for too wide or too high a span or for too many copies has
/// its table refused before any copy is made: the grouped rows hold it still.
pub proof fn law_hostile_cell_refused(
    text: Seq<char>,
    offset: int,
    lay: Layout,
    r: int,
    k: int,
)
    requires
        ({
            let rows = grouped_body(text, offset, lay);
            &&& lay.is_psv
            &&& 0 <= r < rows.len()
            &&& 0 <= k < rows[r].len()
            &&& !cell_within_limits(rows[r][k])
        }),
    ensures
        table_rows(text, offset, false, lay) is Err,
{
    let rows = grouped_body(text, offset, lay);
    lemma_specifiers_found(rows, r, k);
}

/// A header that was asked for is there wherever the body does not begin with white space,
/// and in comma-separated form always.
pub proof fn law_asked_header_stays(text: Seq<char>, is_csv: bool, lay: Layout)
    ensures
        text.len() > 0 && !is_ws(text[0]) ==> table_header(true, text, is_csv, lay),
        is_csv ==> table_header(true, text, is_csv, lay),
        text.len() == 0 ==> table_header(true, text, is_csv, lay),
        table_header(false, text, is_csv, lay) ==> table_header(true, text, is_csv, lay),
{
    let lines = lines_spec(text);
    law_asked_header(true, lines, lay.sep, lay.is_psv);
    if text.len() > 0 && !is_ws(text[0]) {
        lemma_index_from(text, '\n', 0);
        assert(lines[0][0] == text[0]);
        law_blank_lines(lines[0]);
    }
}

proof fn lemma_specifiers_found(rows: Seq<Seq<CellV>>, r: int, k: int)
    requires
        0 <= r < rows.len(),
        0 <= k < rows[r].len(),
        !cell_within_limits(rows[r][k]),
    ensures
        specifiers_violation(rows) is Some,
    decreases rows.len(),
{
    if r == 0 {
        lemma_cells_within(rows[0]);
    } else {
        assert(rows.drop_first()[r - 1] == rows[r]);
        lemma_specifiers_found(rows.drop_first(), r - 1, k);
    }
}

// ---------------------------------------------------------------------------
// Executable operations.
// ---------------------------------------------------------------------------

impl<'a> Table<'a> {
    /// Read the rows of a table body that begins at `base_offset`.
    ///
    /// `is_psv` tells that each cell begins with a separator, `is_csv` that the
    /// body is in comma-separated form. Where a blank line behind the first row
    /// makes it a header, `has_header` is set.
    pub fn parse_rows_with_positions(
        text: &str,
        separator: &Separator<'_>,
        is_psv: bool,
        is_csv: bool,
        has_header: &mut bool,
        base_offset: usize,
        ncols: Option<usize>,
    ) -> (r: Result<Vec<Vec<ParsedCell>>, TableLimitViolation>)
        requires
            separator.wf(),
            base_offset + blen(text@) <= usize::MAX,
        ensures
            match r {
                Ok(rows) => table_rows(
                    text@,
                    base_offset as int,
                    is_csv,
                    (Layout { sep: separator.raw@, is_psv, ncols }),
                ) == Ok::<Seq<Seq<CellV>>, LimitV>(rows.deep_view()),
                Err(e) => table_rows(
                    text@,
                    base_offset as int,
                    is_csv,
                    (Layout { sep: separator.raw@, is_psv, ncols }),
                ) == Err::<Seq<Seq<CellV>>, LimitV>(e.deep_view()),
            },
            *final(has_header) == table_header(
                *old(has_header),
                text@,
                is_csv,
                (Layout { sep: separator.raw@, is_psv, ncols }),
            ),
            *old(has_header) && (is_csv || text@.len() == 0 || !is_ws(text@[0]))
                ==> *final(has_header),
    {
        proof {
            law_asked_header_stays(text@, is_csv, Layout { sep: separator.raw@, is_psv, ncols });
        }
        match ncols {
            Some(n) => if n > MAX_TABLE_COLUMNS {
                return Err(
                    TableLimitViolation::new(
                        "column count",
                        n,
                        MAX_TABLE_COLUMNS,
                        base_offset,
                        base_offset,
                    ),
                );
            },
            None => {},
        }
        if is_csv {
            let rows = Self::parse_csv_rows_with_positions(
                text,
                separator,
                has_header,
                base_offset,
            );
            return match validate_table_limits(&rows) {
                Ok(_) => Ok(rows),
                Err(e) => Err(e),
            };
        }
        parse_body(text, separator, is_psv, has_header, base_offset, ncols)
    }

    /// Read the rows of a body in comma-separated form.
    pub fn parse_csv_rows_with_positions(
        text: &str,
        separator: &Separator<'_>,
        has_header: &mut bool,
        base_offset: usize,
    ) -> (r: Vec<Vec<ParsedCell>>)
        requires
            separator.wf(),
        ensures
            r.deep_view() == csv_rows(text@, separator.raw@, base_offset as int),
            *final(has_header) == (*old(has_header) || csv_implies_header(
                encode_utf8(text@),
                csv_records(text@, csv_separator(separator.raw@)),
            )),
    {
        parse_csv_rows(text, separator, has_header, base_offset)
    }

    /// Read the lines of one row, the first of which starts at
    /// `row_start_offset`.
    pub fn parse_row_with_positions(
        row_lines: &[&str],
        separator: &Separator<'_>,
        is_psv: bool,
        row_start_offset: usize,
    ) -> (r: Vec<ParsedCell>)
        requires
            separator.wf(),
            row_start_offset + lines_blen(row_lines.deep_view()) <= usize::MAX,
        ensures
            r.deep_view() == row_cells(
                row_lines.deep_view(),
                consecutive(row_lines.deep_view(), row_start_offset as int),
                separator.raw@,
                is_psv,
            ),
    {
        let starts = offsets_of(row_lines, row_start_offset);
        parse_row(row_lines, starts.as_slice(), separator, is_psv)
    }
}

} // verus!

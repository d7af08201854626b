//! What another base offset changes: the places of the cells, and nothing else.

use crate::table::csv_rows::{
    csv_records, csv_rows, csv_separator, field_cells, field_position, past_breaks, record_rows,
    record_start,
};
use crate::table::grid::{
    aged, all_cells, copies, covered, expanded, grid_row_width, grid_width, lemma_row_end,
    reflowed, row_end, rows_from, spanning,
};
use crate::table::limits::{
    cell_violation, cells_violation, each_row_violation, row_violation, row_width,
    specifiers_violation, table_violation, LimitV,
};
use crate::table::reader::table_rows;
use crate::table::row::{
    after_first_part, cells_from, consecutive, extend_last, last_byte, line_feed, part_cell,
    row_cells, row_parts, CellV,
};
use crate::table::rows::{
    add_row, at_start, continued, extend_last_row, first_row_cells, first_row_end, first_text,
    grouped, grouped_body, implicit_columns, is_blank, is_row_line, leading_spec,
    lemma_first_row_end, lemma_first_text, lemma_row_lines, lemma_step_advances, paragraph_break,
    row_lines, step, Layout, Progress,
};
use crate::table::separator::{has_sep, PartV};
use crate::table::specifier::CellSpecifier;
use crate::text::{blen, lemma_lines_stand, line_offsets, lines_spec, trim_end_spec};
use vstd::prelude::*;
use vstd::utf8::encode_utf8;

verus! {

/// A cell with its places moved by `d` bytes.
pub open spec fn shifted(cell: CellV, d: int) -> CellV {
    CellV {
        start: cell.start + d,
        content_start: cell.content_start + d,
        end: cell.end + d,
        ..cell
    }
}

/// Cells with their places moved.
pub open spec fn shifted_cells(cells: Seq<CellV>, d: int) -> Seq<CellV> {
    cells.map_values(|c: CellV| shifted(c, d))
}

/// Rows with the places of their cells moved.
pub open spec fn shifted_rows(rows: Seq<Seq<CellV>>, d: int) -> Seq<Seq<CellV>> {
    rows.map_values(|r: Seq<CellV>| shifted_cells(r, d))
}

/// A violation with its place moved.
pub open spec fn shifted_limit(e: LimitV, d: int) -> LimitV {
    LimitV { start: e.start + d, end: e.end + d, ..e }
}

/// Whether `moved` is the violation `e` with its place moved. A row without cells stands
/// at 0 wherever its table begins.
pub open spec fn is_moved_limit(moved: LimitV, e: LimitV, d: int) -> bool {
    moved == shifted_limit(e, d) || (moved == e && e.start == 0 && e.end == 0)
}

/// Offsets moved.
pub open spec fn shifted_starts(starts: Seq<int>, d: int) -> Seq<int> {
    starts.map_values(|n: int| n + d)
}

// ---------------------------------------------------------------------------
// One row.
// ---------------------------------------------------------------------------

proof fn lemma_extend_last_shifted(
    cells: Seq<CellV>,
    text: Seq<char>,
    at: int,
    join: Seq<char>,
    end: int,
    d: int,
)
    ensures
        extend_last(shifted_cells(cells, d), text, at + d, join, end + d) == shifted_cells(
            extend_last(cells, text, at, join, end),
            d,
        ),
{
    assert(extend_last(shifted_cells(cells, d), text, at + d, join, end + d) =~= shifted_cells(
        extend_last(cells, text, at, join, end),
        d,
    ));
}

proof fn lemma_cells_from_shifted(
    cells: Seq<CellV>,
    parts: Seq<PartV>,
    i: int,
    pending: Option<CellSpecifier>,
    offset: int,
    sep: Seq<char>,
    is_psv: bool,
    d: int,
)
    requires
        0 <= i,
    ensures
        cells_from(shifted_cells(cells, d), parts, i, pending, offset + d, sep, is_psv)
            == shifted_cells(cells_from(cells, parts, i, pending, offset, sep, is_psv), d),
    decreases parts.len() - i,
{
    if i < parts.len() {
        let part = parts[i];
        if i == 0 && is_psv {
            let next = after_first_part(cells, part, offset, sep);
            let moved = after_first_part(shifted_cells(cells, d), part, offset + d, sep);
            assert(moved =~= shifted_cells(next, d));
            lemma_cells_from_shifted(next, parts, 1, leading_spec(parts), offset, sep, is_psv, d);
        } else {
            let cell = part_cell(part, pending, offset, sep);
            assert(part_cell(part, pending, offset + d, sep) == shifted(cell, d));
            assert(shifted_cells(cells, d).push(shifted(cell, d)) =~= shifted_cells(
                cells.push(cell),
                d,
            ));
            let left = if part.forced is Some {
                pending
            } else {
                None
            };
            lemma_cells_from_shifted(cells.push(cell), parts, i + 1, left, offset, sep, is_psv, d);
        }
    }
}

/// The cells of lines that start elsewhere.
pub proof fn lemma_row_cells_shifted(
    lines: Seq<Seq<char>>,
    starts: Seq<int>,
    sep: Seq<char>,
    is_psv: bool,
    d: int,
)
    requires
        lines.len() <= starts.len(),
    ensures
        row_cells(lines, shifted_starts(starts, d), sep, is_psv) == shifted_cells(
            row_cells(lines, starts, sep, is_psv),
            d,
        ),
    decreases lines.len(),
{
    if lines.len() == 0 {
        assert(shifted_cells(Seq::empty(), d) =~= Seq::empty());
    } else {
        let before = row_cells(lines.drop_last(), starts, sep, is_psv);
        let line = lines.last();
        let at = starts[lines.len() - 1];
        lemma_row_cells_shifted(lines.drop_last(), starts, sep, is_psv, d);
        assert(shifted_starts(starts, d)[lines.len() - 1] == at + d);
        if has_sep(line, sep) {
            lemma_cells_from_shifted(
                before,
                row_parts(line, sep, is_psv),
                0,
                None,
                at,
                sep,
                is_psv,
                d,
            );
        } else {
            lemma_extend_last_shifted(
                before,
                line,
                at,
                line_feed(),
                last_byte(at, blen(line)),
                d,
            );
        }
    }
}

/// Cells are as wide elsewhere.
pub proof fn lemma_row_width_shifted(cells: Seq<CellV>, d: int)
    ensures
        row_width(shifted_cells(cells, d)) == row_width(cells),
        grid_row_width(shifted_cells(cells, d)) == grid_row_width(cells),
    decreases cells.len(),
{
    if cells.len() > 0 {
        assert(shifted_cells(cells, d).drop_last() =~= shifted_cells(cells.drop_last(), d));
        lemma_row_width_shifted(cells.drop_last(), d);
    }
}

// ---------------------------------------------------------------------------
// The lines of a body.
// ---------------------------------------------------------------------------

proof fn lemma_add_row_shifted(
    rows: Seq<Seq<CellV>>,
    cells: Seq<CellV>,
    merge: bool,
    ncols: Option<usize>,
    d: int,
)
    ensures
        add_row(shifted_rows(rows, d), shifted_cells(cells, d), merge, ncols) == shifted_rows(
            add_row(rows, cells, merge, ncols),
            d,
        ),
{
    if rows.len() > 0 {
        lemma_row_width_shifted(rows.last(), d);
        assert(shifted_cells(rows.last(), d) + shifted_cells(cells, d) =~= shifted_cells(
            rows.last() + cells,
            d,
        ));
    }
    assert(add_row(shifted_rows(rows, d), shifted_cells(cells, d), merge, ncols) =~= shifted_rows(
        add_row(rows, cells, merge, ncols),
        d,
    ));
}

proof fn lemma_continued_shifted(
    rows: Seq<Seq<CellV>>,
    lines: Seq<Seq<char>>,
    starts: Seq<int>,
    k: int,
    first: bool,
    sep: Seq<char>,
    d: int,
)
    requires
        0 <= k <= lines.len() == starts.len(),
    ensures
        ({
            let (out, m) = continued(rows, lines, starts, k, first, sep);
            continued(shifted_rows(rows, d), lines, shifted_starts(starts, d), k, first, sep) == (
                shifted_rows(out, d),
                m,
            )
        }),
    decreases lines.len() - k,
{
    if !(k >= lines.len() || is_blank(lines[k]) || has_sep(trim_end_spec(lines[k]), sep)) {
        let text = trim_end_spec(lines[k]);
        let join = if first {
            paragraph_break()
        } else {
            line_feed()
        };
        let next = extend_last_row(rows, text, starts[k], join);
        if rows.len() > 0 {
            lemma_extend_last_shifted(
                rows.last(),
                text,
                starts[k],
                join,
                last_byte(starts[k], blen(text)),
                d,
            );
        }
        assert(extend_last_row(shifted_rows(rows, d), text, starts[k] + d, join) =~= shifted_rows(
            next,
            d,
        ));
        lemma_continued_shifted(next, lines, starts, k + 1, false, sep, d);
    }
}

/// How far the grouping has come elsewhere.
spec fn shifted_progress(p: Progress, d: int) -> Progress {
    Progress { rows: shifted_rows(p.rows, d), ..p }
}

proof fn lemma_step_shifted(
    lines: Seq<Seq<char>>,
    starts: Seq<int>,
    p: Progress,
    lay: Layout,
    d: int,
)
    requires
        0 <= p.i < lines.len() == starts.len(),
    ensures
        step(lines, shifted_starts(starts, d), shifted_progress(p, d), lay) == shifted_progress(
            step(lines, starts, p, lay),
            d,
        ),
{
    if !(p.i == 0 && is_blank(lines[0])) {
        let alone = is_row_line(lines, p.i, lay.sep, lay.is_psv);
        let (row, j) = row_lines(lines, p.i, lay);
        lemma_row_lines(lines, p.i, lay);
        let places = starts.subrange(p.i, j);
        assert(shifted_starts(starts, d).subrange(p.i, j) =~= shifted_starts(places, d));
        lemma_row_cells_shifted(row, places, lay.sep, lay.is_psv, d);
        let cells = row_cells(row, places, lay.sep, lay.is_psv);
        let merge = !alone && (!p.cut || p.multiline);
        lemma_add_row_shifted(p.rows, cells, merge, lay.ncols, d);
        let rows = if row.len() == 0 {
            p.rows
        } else {
            add_row(p.rows, cells, merge, lay.ncols)
        };
        lemma_first_text(lines, j);
        let k = first_text(lines, j);
        if k > j {
            lemma_continued_shifted(rows, lines, starts, k, true, lay.sep, d);
        }
        let out = step(lines, starts, p, lay).rows;
        if out.len() > 0 && out.last().len() > 0 {
            assert(shifted_rows(out, d).last().last().content == out.last().last().content);
        }
    }
}

proof fn lemma_grouped_shifted(
    lines: Seq<Seq<char>>,
    starts: Seq<int>,
    p: Progress,
    lay: Layout,
    d: int,
)
    requires
        0 <= p.i <= lines.len() == starts.len(),
    ensures
        grouped(lines, shifted_starts(starts, d), shifted_progress(p, d), lay) == shifted_rows(
            grouped(lines, starts, p, lay),
            d,
        ),
    decreases lines.len() - p.i,
{
    if p.i < lines.len() {
        lemma_step_advances(lines, starts, p, lay);
        lemma_step_shifted(lines, starts, p, lay, d);
        lemma_grouped_shifted(lines, starts, step(lines, starts, p, lay), lay, d);
    }
}

proof fn lemma_first_row_shifted(
    lines: Seq<Seq<char>>,
    starts: Seq<int>,
    sep: Seq<char>,
    is_psv: bool,
    d: int,
)
    requires
        lines.len() == starts.len(),
    ensures
        first_row_cells(lines, shifted_starts(starts, d), sep, is_psv) == shifted_cells(
            first_row_cells(lines, starts, sep, is_psv),
            d,
        ),
{
    let start = first_text(lines, 0);
    lemma_first_text(lines, 0);
    lemma_first_row_end(lines, start, start, sep, is_psv);
    let end = first_row_end(lines, start, start, sep, is_psv);
    let places = starts.subrange(start, end);
    assert(shifted_starts(starts, d).subrange(start, end) =~= shifted_starts(places, d));
    lemma_row_cells_shifted(lines.subrange(start, end), places, sep, is_psv, d);
}

// ---------------------------------------------------------------------------
// The grid and the limits.
// ---------------------------------------------------------------------------

proof fn lemma_all_cells_shifted(rows: Seq<Seq<CellV>>, d: int)
    ensures
        all_cells(shifted_rows(rows, d)) == shifted_cells(all_cells(rows), d),
    decreases rows.len(),
{
    if rows.len() == 0 {
        assert(shifted_cells(Seq::empty(), d) =~= Seq::empty());
    } else {
        lemma_all_cells_shifted(rows.drop_last(), d);
        assert(shifted_rows(rows, d).drop_last() =~= shifted_rows(rows.drop_last(), d));
        assert(shifted_cells(all_cells(rows.drop_last()), d) + shifted_cells(rows.last(), d)
            =~= shifted_cells(all_cells(rows), d));
    }
}

proof fn lemma_expanded_shifted(cells: Seq<CellV>, d: int)
    ensures
        expanded(shifted_cells(cells, d)) == shifted_cells(expanded(cells), d),
    decreases cells.len(),
{
    if cells.len() == 0 {
        assert(shifted_cells(Seq::empty(), d) =~= Seq::empty());
    } else {
        lemma_expanded_shifted(cells.drop_last(), d);
        assert(shifted_cells(cells, d).drop_last() =~= shifted_cells(cells.drop_last(), d));
        assert(copies(shifted(cells.last(), d)) =~= shifted_cells(copies(cells.last()), d));
        assert(shifted_cells(expanded(cells.drop_last()), d) + shifted_cells(
            copies(cells.last()),
            d,
        ) =~= shifted_cells(expanded(cells), d));
    }
}

proof fn lemma_spanning_shifted(cells: Seq<CellV>, d: int)
    ensures
        spanning(shifted_cells(cells, d)) == spanning(cells),
    decreases cells.len(),
{
    if cells.len() > 0 {
        lemma_spanning_shifted(cells.drop_last(), d);
        assert(shifted_cells(cells, d).drop_last() =~= shifted_cells(cells.drop_last(), d));
        assert(grid_width(shifted(cells.last(), d)) == grid_width(cells.last()));
    }
}

proof fn lemma_row_end_shifted(
    cells: Seq<CellV>,
    k: int,
    j: int,
    occupied: int,
    ncols: int,
    d: int,
)
    requires
        0 <= k <= j,
    ensures
        row_end(shifted_cells(cells, d), k, j, occupied, ncols) == row_end(
            cells,
            k,
            j,
            occupied,
            ncols,
        ),
    decreases cells.len() - j,
{
    if j < cells.len() {
        assert(shifted_cells(cells, d).subrange(k, j) =~= shifted_cells(cells.subrange(k, j), d));
        lemma_row_width_shifted(cells.subrange(k, j), d);
        lemma_row_end_shifted(cells, k, j + 1, occupied, ncols, d);
    }
}

proof fn lemma_rows_from_shifted(
    cells: Seq<CellV>,
    k: int,
    active: Seq<(usize, usize)>,
    ncols: int,
    d: int,
)
    requires
        0 <= k,
    ensures
        rows_from(shifted_cells(cells, d), k, active, ncols) == shifted_rows(
            rows_from(cells, k, active, ncols),
            d,
        ),
    decreases cells.len() - k,
{
    if k >= cells.len() {
        assert(shifted_rows(Seq::empty(), d) =~= Seq::empty());
    } else {
        lemma_row_end_shifted(cells, k, k, covered(active), ncols, d);
        let e = row_end(cells, k, k, covered(active), ncols);
        lemma_row_end(cells, k, k, covered(active), ncols);
        if e <= k {
            lemma_rows_from_shifted(cells, k + 1, aged(active), ncols, d);
            let rest = rows_from(cells, k + 1, aged(active), ncols);
            assert(shifted_cells(Seq::empty(), d) =~= Seq::empty());
            assert(seq![Seq::<CellV>::empty()] + shifted_rows(rest, d) =~= shifted_rows(
                seq![Seq::<CellV>::empty()] + rest,
                d,
            ));
        } else {
            let row = cells.subrange(k, e);
            assert(shifted_cells(cells, d).subrange(k, e) =~= shifted_cells(row, d));
            lemma_spanning_shifted(row, d);
            let left = aged(active + spanning(row));
            lemma_rows_from_shifted(cells, e, left, ncols, d);
            let rest = rows_from(cells, e, left, ncols);
            assert(seq![shifted_cells(row, d)] + shifted_rows(rest, d) =~= shifted_rows(
                seq![row] + rest,
                d,
            ));
        }
    }
}

/// A violation with its place moved, if there is one.
spec fn shifted_violation(violation: Option<LimitV>, d: int) -> Option<LimitV> {
    match violation {
        Some(e) => Some(shifted_limit(e, d)),
        None => None,
    }
}

proof fn lemma_cells_violation_shifted(cells: Seq<CellV>, d: int)
    ensures
        cells_violation(shifted_cells(cells, d)) == shifted_violation(cells_violation(cells), d),
    decreases cells.len(),
{
    if cells.len() > 0 {
        assert(shifted_cells(cells, d).drop_first() =~= shifted_cells(cells.drop_first(), d));
        assert(cell_violation(shifted(cells[0], d)) == shifted_violation(
            cell_violation(cells[0]),
            d,
        ));
        lemma_cells_violation_shifted(cells.drop_first(), d);
    }
}

proof fn lemma_specifiers_shifted(rows: Seq<Seq<CellV>>, d: int)
    ensures
        specifiers_violation(shifted_rows(rows, d)) == shifted_violation(
            specifiers_violation(rows),
            d,
        ),
        each_row_violation(shifted_rows(rows, d)) == shifted_violation(each_row_violation(rows), d),
    decreases rows.len(),
{
    if rows.len() > 0 {
        lemma_cells_violation_shifted(rows[0], d);
        assert(shifted_rows(rows, d).drop_first() =~= shifted_rows(rows.drop_first(), d));
        assert(row_violation(shifted_cells(rows[0], d)) == shifted_violation(
            row_violation(rows[0]),
            d,
        ));
        lemma_specifiers_shifted(rows.drop_first(), d);
    }
}

proof fn lemma_table_violation_shifted(rows: Seq<Seq<CellV>>, d: int)
    ensures
        table_violation(shifted_rows(rows, d)) is Some <==> table_violation(rows) is Some,
        table_violation(rows) matches Some(e) ==> is_moved_limit(
            table_violation(shifted_rows(rows, d))->Some_0,
            e,
            d,
        ),
{
    lemma_specifiers_shifted(rows, d);
}

// ---------------------------------------------------------------------------
// Comma-separated bodies.
// ---------------------------------------------------------------------------

/// Whether the places of a cell are numbers that a machine integer holds with room to
/// spare.
pub open spec fn cell_fits(cell: CellV) -> bool {
    cell.start < usize::MAX && cell.content_start < usize::MAX && cell.end < usize::MAX
}

/// Whether those of all cells are.
pub open spec fn rows_fit(rows: Seq<Seq<CellV>>) -> bool {
    forall|r: int, k: int|
        #![trigger rows[r][k]]
        0 <= r < rows.len() && 0 <= k < rows[r].len() ==> cell_fits(rows[r][k])
}

proof fn lemma_fields_shifted(
    bytes: Seq<u8>,
    fields: Seq<Seq<char>>,
    k: int,
    at: int,
    base: int,
    sep_byte: u8,
    d: int,
)
    requires
        d >= 0,
        forall|j: int|
            #![trigger field_cells(bytes, fields, k, at, base + d, sep_byte)[j]]
            0 <= j < field_cells(bytes, fields, k, at, base + d, sep_byte).len() ==> cell_fits(
                field_cells(bytes, fields, k, at, base + d, sep_byte)[j],
            ),
    ensures
        field_cells(bytes, fields, k, at, base + d, sep_byte) == shifted_cells(
            field_cells(bytes, fields, k, at, base, sep_byte),
            d,
        ),
    decreases fields.len() - k,
{
    if k >= fields.len() {
        assert(shifted_cells(Seq::empty(), d) =~= Seq::empty());
    } else {
        let all = field_cells(bytes, fields, k, at, base + d, sep_byte);
        let next = field_position(bytes, at, blen(fields[k]) as int, sep_byte).1;
        let rest = field_cells(bytes, fields, k + 1, next, base + d, sep_byte);
        assert(cell_fits(all[0]));
        assert forall|j: int| #![trigger rest[j]] 0 <= j < rest.len() implies cell_fits(rest[j]) by {
            assert(all[j + 1] == rest[j]);
        }
        lemma_fields_shifted(bytes, fields, k + 1, next, base, sep_byte, d);
        let here = field_cells(bytes, fields, k, at, base, sep_byte);
        assert(all[0] == shifted(here[0], d));
        assert(all =~= shifted_cells(here, d));
    }
}

proof fn lemma_records_shifted(
    bytes: Seq<u8>,
    records: Seq<Option<(Option<u64>, Seq<Seq<char>>)>>,
    k: int,
    base: int,
    sep_byte: u8,
    d: int,
)
    requires
        d >= 0,
        rows_fit(record_rows(bytes, records, k, base + d, sep_byte)),
    ensures
        record_rows(bytes, records, k, base + d, sep_byte) == shifted_rows(
            record_rows(bytes, records, k, base, sep_byte),
            d,
        ),
    decreases records.len() - k,
{
    if k >= records.len() {
        assert(shifted_rows(Seq::empty(), d) =~= Seq::empty());
    } else {
        let all = record_rows(bytes, records, k, base + d, sep_byte);
        let rest = record_rows(bytes, records, k + 1, base + d, sep_byte);
        let skip: int = if all.len() > rest.len() {
            1
        } else {
            0
        };
        assert forall|r: int, j: int|
            #![trigger rest[r][j]]
            0 <= r < rest.len() && 0 <= j < rest[r].len() implies cell_fits(rest[r][j]) by {
            assert(all[r + skip][j] == rest[r][j]);
        }
        lemma_records_shifted(bytes, records, k + 1, base, sep_byte, d);
        match records[k] {
            Some(record) if record.1.len() > 0 => {
                let at = past_breaks(bytes, record_start(record.0));
                let first = field_cells(bytes, record.1, 0, at, base + d, sep_byte);
                assert forall|j: int| #![trigger first[j]] 0 <= j < first.len() implies cell_fits(
                    first[j],
                ) by {
                    assert(all[0][j] == first[j]);
                }
                lemma_fields_shifted(bytes, record.1, 0, at, base, sep_byte, d);
            },
            _ => {},
        }
        assert(all =~= shifted_rows(record_rows(bytes, records, k, base, sep_byte), d));
    }
}

// ---------------------------------------------------------------------------
// The laws.
// ---------------------------------------------------------------------------

/// The lines of a row that begin elsewhere have the same cells, with their places moved
/// by as much.
pub proof fn law_another_base_shifts_a_row(
    lines: Seq<Seq<char>>,
    offset: int,
    d: int,
    sep: Seq<char>,
    is_psv: bool,
)
    ensures
        row_cells(lines, consecutive(lines, offset + d), sep, is_psv) == shifted_cells(
            row_cells(lines, consecutive(lines, offset), sep, is_psv),
            d,
        ),
{
    let starts = consecutive(lines, offset);
    assert(consecutive(lines, offset + d) =~= shifted_starts(starts, d));
    lemma_row_cells_shifted(lines, starts, sep, is_psv, d);
}

/// A table that begins elsewhere has the same cells, with `start`, `content_start` and
/// `end` moved by as much and nothing else changed; or it is refused for the same excess,
/// with the place of it moved. Whether it has a header does not depend on where it
/// begins. (In comma-separated form this holds as long as the offsets are numbers that a
/// machine integer holds.)
pub proof fn law_another_base_shifts_the_places(
    text: Seq<char>,
    offset: int,
    d: int,
    is_csv: bool,
    lay: Layout,
)
    requires
        d >= 0,
        is_csv ==> rows_fit(csv_rows(text, lay.sep, offset + d)),
    ensures
        match (table_rows(text, offset, is_csv, lay), table_rows(text, offset + d, is_csv, lay)) {
            (Ok(rows), Ok(moved)) => moved == shifted_rows(rows, d),
            (Err(e), Err(moved)) => is_moved_limit(moved, e, d),
            _ => false,
        },
{
    if is_csv {
        let rows = csv_rows(text, lay.sep, offset);
        let sep = csv_separator(lay.sep);
        lemma_records_shifted(encode_utf8(text), csv_records(text, sep), 0, offset, sep, d);
        lemma_table_violation_shifted(rows, d);
    } else {
        let lines = lines_spec(text);
        let starts = line_offsets(text, offset);
        lemma_lines_stand(text, 0);
        assert(line_offsets(text, offset + d) =~= shifted_starts(starts, d));
        let rows = grouped_body(text, offset, lay);
        lemma_grouped_shifted(lines, starts, at_start(), lay, d);
        assert(shifted_rows(Seq::empty(), d) =~= Seq::empty());
        assert(grouped_body(text, offset + d, lay) == shifted_rows(rows, d));
        lemma_specifiers_shifted(rows, d);
        let first = first_row_cells(lines, starts, lay.sep, lay.is_psv);
        lemma_first_row_shifted(lines, starts, lay.sep, lay.is_psv, d);
        lemma_cells_violation_shifted(first, d);
        lemma_row_width_shifted(first, d);
        let ncols = match lay.ncols {
            Some(n) => n as int,
            None => implicit_columns(first),
        };
        lemma_all_cells_shifted(rows, d);
        let cells = all_cells(rows);
        lemma_expanded_shifted(cells, d);
        lemma_rows_from_shifted(expanded(cells), 0, Seq::empty(), ncols, d);
        let out = reflowed(rows, ncols);
        assert(reflowed(shifted_rows(rows, d), ncols) == shifted_rows(out, d));
        lemma_table_violation_shifted(rows, d);
        lemma_table_violation_shifted(out, d);
    }
}

} // verus!

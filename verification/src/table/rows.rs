//! Grouping the lines of a table body into rows.
//!
//! In a table whose cells each begin with a separator (`is_psv`), a row may
//! stretch over several lines and a cell over several paragraphs; elsewhere each
//! line is a row.

use crate::table::grid::{cell_grid_width, grid_reflow, grid_row_width, reflowed};
use crate::table::limits::{
    cells_violation, row_columns, row_width, saturated, specifiers_violation, table_violation,
    validate_all_specifiers, validate_cell_specifiers, validate_table_limits, LimitV,
    TableLimitViolation, MAX_TABLE_COLUMNS,
};
use crate::table::row::{
    after_first_part, end_of, ends_with_spec, extend_last, extend_last_cell, ints,
    last_byte, leads_with_spec, lemma_cells_from_parts, lemma_row_parts_bounds, line_feed,
    parse_row, part_ends_with_spec, row_cells, row_parts, CellV, ParsedCell,
};
use crate::table::separator::{
    count_seps, count_unescaped_separators, find_first_separator, first_sep, has_sep,
    lemma_has_sep_count, lemma_split_len, line_has_unescaped_separator, split_line, split_spec,
    PartV, Separator,
};
use crate::table::shift::{
    lemma_row_cells_shifted, lemma_row_width_shifted, shifted_cells, shifted_starts,
};
use crate::table::specifier::{first_part_spec, full_spec, is_full_spec, CellSpecifier};
use crate::text::{
    blen, byte_len, contains, contains_char, contains_spec, ends_in_whitespace, ends_in_ws, is_ws,
    leading_ws, lemma_blen_subrange, lemma_leading_ws, lemma_lines_stand, lemma_trim_blen,
    lemma_trimmed_len, line_offsets, lines_at, lines_spec, starts_from, starts_with,
    starts_with_spec, trim, trim_end, trim_end_spec, trim_spec, trim_start, trim_start_spec,
    trimmed_len,
};
use vstd::prelude::*;
use vstd::string::*;

verus! {

// ---------------------------------------------------------------------------
// Single lines.
// ---------------------------------------------------------------------------

/// A line that holds nothing but white space.
pub open spec fn is_blank(line: Seq<char>) -> bool {
    trim_end_spec(line).len() == 0
}

/// Whether the text before the first separator of a line is a specifier, flush
/// against the separator.
pub open spec fn starts_row_at(line: Seq<char>, sep_pos: int) -> bool {
    let before = line.take(sep_pos);
    !ends_in_ws(before) && is_full_spec(trim_start_spec(before))
}

/// Whether a line begins a row by a specifier before its first separator.
pub open spec fn new_row_start(line: Seq<char>, sep: Seq<char>, is_psv: bool) -> bool {
    is_psv && match first_sep(line, sep) {
        Some(pos) => starts_row_at(line, pos),
        None => false,
    }
}

/// Whether the last part of a line is empty, as behind a separator at the end.
pub open spec fn ends_open(parts: Seq<PartV>) -> bool {
    parts.len() > 1 && trim_spec(parts.last().content).len() == 0
}

/// Whether the last part of a line is empty and nothing but the end of the line: no
/// specifier stands before it. Behind a specifier it is a cell, the text of which
/// follows on later lines.
pub open spec fn ends_bare(line: Seq<char>, sep: Seq<char>) -> bool {
    let parts = split_spec(line, sep);
    ends_open(parts) && !ends_with_spec(parts[parts.len() - 2].content)
}

/// The columns that the cells of a line take. A separator at the end of a line counts
/// for no cell unless a specifier stands before it.
pub open spec fn line_columns(line: Seq<char>, sep: Seq<char>, is_psv: bool) -> int {
    let cells = row_cells(seq![line], seq![0int], sep, is_psv);
    if !has_sep(line, sep) {
        0
    } else if ends_bare(line, sep) {
        row_width(cells.drop_last())
    } else {
        row_width(cells)
    }
}

// ---------------------------------------------------------------------------
// The lines of a body.
// ---------------------------------------------------------------------------

/// The first line at or after `from` that is not blank, or the number of lines.
pub open spec fn first_text(lines: Seq<Seq<char>>, from: int) -> int
    decreases lines.len() - from,
{
    if from >= lines.len() || !is_blank(lines[from]) {
        from
    } else {
        first_text(lines, from + 1)
    }
}

/// Whether a line begins with the separator.
pub open spec fn is_separator_led(line: Seq<char>, sep: Seq<char>) -> bool {
    starts_with_spec(trim_start_spec(trim_end_spec(line)), sep)
}

/// Whether the next line that is not blank continues the row: it begins neither
/// with a separator nor with a specifier.
pub open spec fn continues_row(
    lines: Seq<Seq<char>>,
    from: int,
    sep: Seq<char>,
    is_psv: bool,
) -> bool {
    let g = first_text(lines, from);
    &&& is_psv
    &&& g < lines.len()
    &&& !is_separator_led(lines[g], sep)
    &&& !new_row_start(trim_end_spec(lines[g]), sep, is_psv)
}

/// Whether the first line that is not blank, from `from` on, holds a separator.
pub open spec fn separator_follows(lines: Seq<Seq<char>>, from: int, sep: Seq<char>) -> bool {
    let g = first_text(lines, from);
    g < lines.len() && has_sep(trim_end_spec(lines[g]), sep)
}

/// Whether the first row is a header: a blank line comes right behind the first
/// line with text, and a new row behind that.
pub open spec fn implies_header(lines: Seq<Seq<char>>, sep: Seq<char>, is_psv: bool) -> bool {
    let f = first_text(lines, 0);
    &&& f + 1 < lines.len()
    &&& is_blank(lines[f + 1])
    &&& separator_follows(lines, f + 1, sep)
    &&& !continues_row(lines, f + 1, sep, is_psv)
}

/// Whether the first row is a header, where it was asked for or not. A body that
/// begins with a blank line has none.
pub open spec fn header_after(
    asked: bool,
    lines: Seq<Seq<char>>,
    sep: Seq<char>,
    is_psv: bool,
) -> bool {
    if lines.len() > 0 && is_blank(lines[0]) {
        false
    } else {
        asked || implies_header(lines, sep, is_psv)
    }
}

/// Whether line `i` is a row of its own.
pub open spec fn is_row_line(lines: Seq<Seq<char>>, i: int, sep: Seq<char>, is_psv: bool) -> bool {
    let line = trim_end_spec(lines[i]);
    let parts = split_spec(line, sep);
    if is_psv {
        &&& has_sep(line, sep)
        &&& parts.len() > 2
        &&& !(ends_open(parts) && ends_with_spec(parts[parts.len() - 2].content))
        &&& !continues_row(lines, i + 1, sep, is_psv)
    } else {
        contains_spec(line, sep)
    }
}

/// How a table is read: its separator, whether its cells each begin with one,
/// and the number of its columns where it is given.
pub struct Layout {
    pub sep: Seq<char>,
    pub is_psv: bool,
    pub ncols: Option<usize>,
}

/// Whether a line that begins with the separator ends the row that has come to
/// `columns` columns; `paragraph` tells that the row holds a line that began
/// without a separator.
pub open spec fn ends_row(
    line: Seq<char>,
    lay: Layout,
    started: bool,
    columns: int,
    paragraph: bool,
) -> bool {
    let led = lay.is_psv && starts_with_spec(line, lay.sep);
    ||| started && new_row_start(line, lay.sep, lay.is_psv)
    ||| paragraph && led && count_seps(line, lay.sep) > 1
    ||| started && led && lay.ncols is Some && columns >= lay.ncols->Some_0
}

/// The lines of a row that stretches over several lines, from line `i` on behind
/// the lines `row`, and the line behind them.
pub open spec fn collect(
    lines: Seq<Seq<char>>,
    i: int,
    row: Seq<Seq<char>>,
    columns: int,
    paragraph: bool,
    lay: Layout,
) -> (Seq<Seq<char>>, int)
    decreases lines.len() - i,
{
    if i >= lines.len() {
        (row, i)
    } else {
        let line = trim_end_spec(lines[i]);
        if line.len() == 0 {
            if continues_row(lines, i + 1, lay.sep, lay.is_psv) {
                collect(lines, i + 1, row.push(line), columns, paragraph, lay)
            } else {
                (row, i)
            }
        } else if ends_row(line, lay, row.len() > 0, columns, paragraph) {
            (row, i)
        } else {
            collect(
                lines,
                i + 1,
                row.push(line),
                saturated(columns + line_columns(line, lay.sep, lay.is_psv)),
                paragraph || (row.len() > 0 && lay.is_psv && !starts_with_spec(line, lay.sep)),
                lay,
            )
        }
    }
}

/// The lines of the row that begins with line `i`, and the line behind them.
pub open spec fn row_lines(lines: Seq<Seq<char>>, i: int, lay: Layout) -> (Seq<Seq<char>>, int) {
    if is_row_line(lines, i, lay.sep, lay.is_psv) {
        (seq![trim_end_spec(lines[i])], i + 1)
    } else {
        collect(lines, i, Seq::empty(), 0, false, lay)
    }
}

/// The rows with the cells of one more. Where `merge` is set, the cells go into
/// the last row as long as it is not full.
pub open spec fn add_row(
    rows: Seq<Seq<CellV>>,
    cells: Seq<CellV>,
    merge: bool,
    ncols: Option<usize>,
) -> Seq<Seq<CellV>> {
    if merge && ncols is Some && rows.len() > 0 && row_width(rows.last()) < ncols->Some_0 {
        rows.drop_last().push(rows.last() + cells)
    } else {
        rows.push(cells)
    }
}

/// The break between two paragraphs of a cell.
pub open spec fn paragraph_break() -> Seq<char> {
    seq!['\n', '\n']
}

/// The rows with more text behind that of their last cell.
pub open spec fn extend_last_row(
    rows: Seq<Seq<CellV>>,
    text: Seq<char>,
    at: int,
    join: Seq<char>,
) -> Seq<Seq<CellV>> {
    if rows.len() == 0 {
        rows
    } else {
        rows.drop_last().push(extend_last(rows.last(), text, at, join, last_byte(at, blen(text))))
    }
}

/// The rows after the lines from `k` on that continue the last cell behind a
/// blank line, and the line behind those. The first of them begins a paragraph.
pub open spec fn continued(
    rows: Seq<Seq<CellV>>,
    lines: Seq<Seq<char>>,
    starts: Seq<int>,
    k: int,
    first: bool,
    sep: Seq<char>,
) -> (Seq<Seq<CellV>>, int)
    decreases lines.len() - k,
{
    if k >= lines.len() || is_blank(lines[k]) || has_sep(trim_end_spec(lines[k]), sep) {
        (rows, k)
    } else {
        let join = if first {
            paragraph_break()
        } else {
            line_feed()
        };
        continued(
            extend_last_row(rows, trim_end_spec(lines[k]), starts[k], join),
            lines,
            starts,
            k + 1,
            false,
            sep,
        )
    }
}

/// Whether the last cell of the rows has more than one line.
pub open spec fn last_cell_multiline(rows: Seq<Seq<CellV>>) -> bool {
    rows.len() > 0 && rows.last().len() > 0 && rows.last().last().content.contains('\n')
}

/// How far the grouping has come: the next line, the rows so far, whether a blank
/// line ended the last of them, and whether its last cell has more than one line.
pub struct Progress {
    pub i: int,
    pub rows: Seq<Seq<CellV>>,
    pub cut: bool,
    pub multiline: bool,
}

/// One step of the grouping: the lines of a row, the blank lines behind it, and
/// the lines behind those that continue its last cell.
pub open spec fn step(
    lines: Seq<Seq<char>>,
    starts: Seq<int>,
    p: Progress,
    lay: Layout,
) -> Progress {
    if p.i == 0 && is_blank(lines[0]) {
        Progress { i: 1, ..p }
    } else {
        let alone = is_row_line(lines, p.i, lay.sep, lay.is_psv);
        let (row, j) = row_lines(lines, p.i, lay);
        let rows = if row.len() == 0 {
            p.rows
        } else {
            add_row(
                p.rows,
                row_cells(row, starts.subrange(p.i, j), lay.sep, lay.is_psv),
                !alone && (!p.cut || p.multiline),
                lay.ncols,
            )
        };
        let k = first_text(lines, j);
        let (rows, m) = if k > j {
            continued(rows, lines, starts, k, true, lay.sep)
        } else {
            (rows, k)
        };
        Progress { i: m, rows, cut: k > j && m == k, multiline: last_cell_multiline(rows) }
    }
}

/// The rows of the lines from where the grouping has come to.
pub open spec fn grouped(
    lines: Seq<Seq<char>>,
    starts: Seq<int>,
    p: Progress,
    lay: Layout,
) -> Seq<Seq<CellV>>
    decreases lines.len() - p.i,
    via grouped_ends
{
    if p.i < 0 || p.i >= lines.len() {
        p.rows
    } else {
        grouped(lines, starts, step(lines, starts, p, lay), lay)
    }
}

#[via_fn]
proof fn grouped_ends(lines: Seq<Seq<char>>, starts: Seq<int>, p: Progress, lay: Layout) {
    if 0 <= p.i < lines.len() {
        lemma_step_advances(lines, starts, p, lay);
    }
}

/// Where the grouping begins.
pub open spec fn at_start() -> Progress {
    Progress { i: 0, rows: Seq::empty(), cut: false, multiline: false }
}

/// The rows that the lines of a body make that begins at `offset`.
pub open spec fn grouped_body(text: Seq<char>, offset: int, lay: Layout) -> Seq<Seq<CellV>> {
    grouped(lines_spec(text), line_offsets(text, offset), at_start(), lay)
}

/// The end of the first row as it is written, from line `j` on: it goes on to
/// the next line that begins with a separator or a specifier, or to a blank line
/// that no continuation follows.
pub open spec fn first_row_end(
    lines: Seq<Seq<char>>,
    start: int,
    j: int,
    sep: Seq<char>,
    is_psv: bool,
) -> int
    decreases lines.len() - j,
{
    if j >= lines.len() {
        j
    } else if is_blank(lines[j]) {
        if j > start && continues_row(lines, j + 1, sep, is_psv) {
            first_row_end(lines, start, j + 1, sep, is_psv)
        } else {
            j
        }
    } else if j > start && (is_separator_led(lines[j], sep) || new_row_start(
        trim_end_spec(lines[j]),
        sep,
        is_psv,
    )) {
        j
    } else {
        first_row_end(lines, start, j + 1, sep, is_psv)
    }
}

/// The cells of the first row as it is written.
pub open spec fn first_row_cells(
    lines: Seq<Seq<char>>,
    starts: Seq<int>,
    sep: Seq<char>,
    is_psv: bool,
) -> Seq<CellV> {
    let start = first_text(lines, 0);
    let end = first_row_end(lines, start, start, sep, is_psv);
    row_cells(lines.subrange(start, end), starts.subrange(start, end), sep, is_psv)
}

/// The number of columns where none is given: those of the first row.
pub open spec fn implicit_columns(first: Seq<CellV>) -> int {
    if grid_row_width(first) < 1 {
        1
    } else {
        grid_row_width(first)
    }
}

/// The rows, or the bound that they exceed.
pub open spec fn checked(rows: Seq<Seq<CellV>>) -> Result<Seq<Seq<CellV>>, LimitV> {
    match table_violation(rows) {
        Some(v) => Err(v),
        None => Ok(rows),
    }
}

/// What becomes of the grouped rows: in a table with leading separators the cells
/// are laid out anew, once their spans and copies are known to be within bounds.
pub open spec fn laid_out(
    rows: Seq<Seq<CellV>>,
    lines: Seq<Seq<char>>,
    starts: Seq<int>,
    lay: Layout,
) -> Result<Seq<Seq<CellV>>, LimitV> {
    if lay.is_psv && rows.len() > 0 {
        let first = first_row_cells(lines, starts, lay.sep, lay.is_psv);
        if lay.ncols is None && cells_violation(first) is Some {
            Err(cells_violation(first)->Some_0)
        } else if specifiers_violation(rows) is Some {
            Err(specifiers_violation(rows)->Some_0)
        } else {
            checked(
                reflowed(
                    rows,
                    match lay.ncols {
                        Some(n) => n as int,
                        None => implicit_columns(first),
                    },
                ),
            )
        }
    } else {
        checked(rows)
    }
}

/// The refusal of a table that asks for more columns than it may have.
pub open spec fn too_many_columns(n: usize, offset: int) -> LimitV {
    LimitV {
        resource: "column count"@,
        requested: n as int,
        limit: MAX_TABLE_COLUMNS as int,
        start: offset,
        end: offset,
    }
}

/// The rows of a table body that begins at `offset`.
pub open spec fn body_rows(text: Seq<char>, offset: int, lay: Layout) -> Result<
    Seq<Seq<CellV>>,
    LimitV,
> {
    laid_out(
        grouped_body(text, offset, lay),
        lines_spec(text),
        line_offsets(text, offset),
        lay,
    )
}

// ---------------------------------------------------------------------------
// Facts about the model.
// ---------------------------------------------------------------------------

/// Whether there is an offset for each line, and the line behind it fits.
pub open spec fn are_offsets(starts: Seq<usize>, lines: Seq<&str>) -> bool {
    &&& starts.len() == lines.len()
    &&& forall|k: int|
        #![trigger starts[k]]
        0 <= k < starts.len() ==> starts[k] + blen(lines[k]@) <= usize::MAX
}

/// The lines of a body end within it.
pub proof fn lemma_offsets(text: Seq<char>, base: int)
    ensures
        line_offsets(text, base).len() == lines_spec(text).len(),
        forall|k: int|
            #![trigger line_offsets(text, base)[k]]
            0 <= k < lines_spec(text).len() ==> {
                &&& base <= line_offsets(text, base)[k]
                &&& line_offsets(text, base)[k] + blen(lines_spec(text)[k]) <= base + blen(text)
            },
{
    lemma_lines_stand(text, 0);
    assert forall|k: int|
        #![trigger line_offsets(text, base)[k]]
        0 <= k < lines_spec(text).len() implies {
        &&& base <= line_offsets(text, base)[k]
        &&& line_offsets(text, base)[k] + blen(lines_spec(text)[k]) <= base + blen(text)
    } by {
        let p = starts_from(text, 0)[k];
        let line = lines_spec(text)[k];
        lemma_blen_subrange(text, p, p + line.len());
    }
}

/// A line with a separator makes at least one cell.
proof fn lemma_line_cells(line: Seq<char>, offset: int, sep: Seq<char>, is_psv: bool)
    requires
        has_sep(line, sep),
    ensures
        row_cells(seq![line], seq![offset], sep, is_psv).len() > 0,
{
    let one = seq![line];
    let parts = row_parts(line, sep, is_psv);
    let none = Seq::<CellV>::empty();
    assert(one.drop_last() =~= Seq::<Seq<char>>::empty());
    assert(row_cells(one.drop_last(), seq![offset], sep, is_psv) =~= none);
    lemma_has_sep_count(line, sep);
    lemma_split_len(line, sep);
    lemma_row_parts_bounds(line, sep, is_psv);
    if is_psv {
        assert(after_first_part(none, parts[0], offset, sep) =~= none);
        lemma_cells_from_parts(none, parts, 1, leading_spec(parts), offset, sep, is_psv, 0);
    } else {
        lemma_cells_from_parts(none, parts, 0, None, offset, sep, is_psv, 0);
    }
}

/// The first row ends where there are lines.
pub proof fn lemma_first_row_end(
    lines: Seq<Seq<char>>,
    start: int,
    j: int,
    sep: Seq<char>,
    is_psv: bool,
)
    requires
        start <= j <= lines.len(),
    ensures
        j <= first_row_end(lines, start, j, sep, is_psv) <= lines.len(),
    decreases lines.len() - j,
{
    if j < lines.len() {
        lemma_first_row_end(lines, start, j + 1, sep, is_psv);
    }
}

pub proof fn lemma_first_text(lines: Seq<Seq<char>>, from: int)
    requires
        from <= lines.len(),
    ensures
        from <= first_text(lines, from) <= lines.len(),
        forall|k: int| from <= k < first_text(lines, from) ==> is_blank(#[trigger] lines[k]),
        first_text(lines, from) < lines.len() ==> !is_blank(lines[first_text(lines, from)]),
    decreases lines.len() - from,
{
    if from < lines.len() && is_blank(lines[from]) {
        lemma_first_text(lines, from + 1);
    }
}

proof fn lemma_collect(
    lines: Seq<Seq<char>>,
    i: int,
    row: Seq<Seq<char>>,
    columns: int,
    paragraph: bool,
    lay: Layout,
)
    requires
        0 <= i <= lines.len(),
    ensures
        ({
            let (out, j) = collect(lines, i, row, columns, paragraph, lay);
            &&& i <= j <= lines.len()
            &&& out.len() == row.len() + (j - i)
            &&& forall|k: int| 0 <= k < row.len() ==> #[trigger] out[k] == row[k]
            &&& forall|k: int|
                row.len() <= k < out.len() ==> #[trigger] out[k] == trim_end_spec(
                    lines[i + (k - row.len())],
                )
        }),
    decreases lines.len() - i,
{
    if i < lines.len() {
        let line = trim_end_spec(lines[i]);
        if line.len() == 0 {
            if continues_row(lines, i + 1, lay.sep, lay.is_psv) {
                lemma_collect(lines, i + 1, row.push(line), columns, paragraph, lay);
            }
        } else if !ends_row(line, lay, row.len() > 0, columns, paragraph) {
            lemma_collect(
                lines,
                i + 1,
                row.push(line),
                saturated(columns + line_columns(line, lay.sep, lay.is_psv)),
                paragraph || (row.len() > 0 && lay.is_psv && !starts_with_spec(line, lay.sep)),
                lay,
            );
        }
    }
}

/// The lines of a row are lines of the body; a row that begins with text has one.
pub proof fn lemma_row_lines(lines: Seq<Seq<char>>, i: int, lay: Layout)
    requires
        0 <= i < lines.len(),
    ensures
        i <= row_lines(lines, i, lay).1 <= lines.len(),
        row_lines(lines, i, lay).0.len() == row_lines(lines, i, lay).1 - i,
        forall|k: int|
            #![trigger row_lines(lines, i, lay).0[k]]
            0 <= k < row_lines(lines, i, lay).0.len() ==> row_lines(lines, i, lay).0[k]
                == trim_end_spec(lines[i + k]),
        !is_blank(lines[i]) ==> row_lines(lines, i, lay).1 > i,
{
    lemma_collect(lines, i, Seq::empty(), 0, false, lay);
    if !is_row_line(lines, i, lay.sep, lay.is_psv) && !is_blank(lines[i]) {
        let line = trim_end_spec(lines[i]);
        let none = Seq::<Seq<char>>::empty();
        assert(!ends_row(line, lay, none.len() > 0, 0, false));
        lemma_collect(
            lines,
            i + 1,
            none.push(line),
            saturated(0 + line_columns(line, lay.sep, lay.is_psv)),
            false,
            lay,
        );
    }
}

proof fn lemma_continued(
    rows: Seq<Seq<CellV>>,
    lines: Seq<Seq<char>>,
    starts: Seq<int>,
    k: int,
    first: bool,
    sep: Seq<char>,
)
    requires
        0 <= k <= lines.len(),
    ensures
        k <= continued(rows, lines, starts, k, first, sep).1 <= lines.len(),
    decreases lines.len() - k,
{
    if !(k >= lines.len() || is_blank(lines[k]) || has_sep(trim_end_spec(lines[k]), sep)) {
        let join = if first {
            paragraph_break()
        } else {
            line_feed()
        };
        lemma_continued(
            extend_last_row(rows, trim_end_spec(lines[k]), starts[k], join),
            lines,
            starts,
            k + 1,
            false,
            sep,
        );
    }
}

/// Each step of the grouping takes at least one line, and none that is not there.
pub proof fn lemma_step_advances(
    lines: Seq<Seq<char>>,
    starts: Seq<int>,
    p: Progress,
    lay: Layout,
)
    requires
        0 <= p.i < lines.len(),
    ensures
        p.i < step(lines, starts, p, lay).i <= lines.len(),
{
    if !(p.i == 0 && is_blank(lines[0])) {
        lemma_row_lines(lines, p.i, lay);
        let (row, j) = row_lines(lines, p.i, lay);
        lemma_first_text(lines, j);
        let k = first_text(lines, j);
        if k > j {
            let rows = if row.len() == 0 {
                p.rows
            } else {
                add_row(
                    p.rows,
                    row_cells(row, starts.subrange(p.i, j), lay.sep, lay.is_psv),
                    !is_row_line(lines, p.i, lay.sep, lay.is_psv) && (!p.cut || p.multiline),
                    lay.ncols,
                )
            };
            lemma_continued(rows, lines, starts, k, true, lay.sep);
        }
    }
}

/// The specifier that stands before the first separator of a line, flush against it.
pub open spec fn leading_spec(parts: Seq<PartV>) -> Option<CellSpecifier> {
    if leads_with_spec(parts[0].content) {
        Some(first_part_spec(trim_spec(parts[0].content)).0)
    } else {
        None
    }
}

/// The columns that a line is counted to take before it is read are those that its
/// cells take once it is read. Only the empty cell behind a separator at the end of a
/// line, with no specifier before it, is not counted.
pub proof fn law_column_counts_agree(line: Seq<char>, sep: Seq<char>, is_psv: bool, offset: int)
    requires
        has_sep(line, sep),
    ensures
        ({
            let cells = row_cells(seq![line], seq![offset], sep, is_psv);
            line_columns(line, sep, is_psv) == row_width(
                if ends_bare(line, sep) {
                    cells.drop_last()
                } else {
                    cells
                },
            )
        }),
{
    let one = seq![line];
    let cells = row_cells(one, seq![0int], sep, is_psv);
    lemma_row_cells_shifted(one, seq![0int], sep, is_psv, offset);
    assert(shifted_starts(seq![0int], offset) =~= seq![offset]);
    lemma_row_width_shifted(cells, offset);
    lemma_line_cells(line, 0, sep, is_psv);
    assert(shifted_cells(cells, offset).drop_last() =~= shifted_cells(cells.drop_last(), offset));
    lemma_row_width_shifted(cells.drop_last(), offset);
}

/// A line is blank exactly when all of its characters are white space.
pub proof fn law_blank_lines(line: Seq<char>)
    ensures
        is_blank(line) <==> forall|k: int| 0 <= k < line.len() ==> is_ws(#[trigger] line[k]),
{
    lemma_trimmed_len(line);
    if trimmed_len(line) > 0 {
        assert(!is_ws(line[trimmed_len(line) - 1]));
    }
}

/// A header that was asked for is there, whatever the lines of the body are, but for a
/// body that begins with a blank line, which has none.
pub proof fn law_asked_header(asked: bool, lines: Seq<Seq<char>>, sep: Seq<char>, is_psv: bool)
    ensures
        lines.len() > 0 && !is_blank(lines[0]) && asked ==> header_after(asked, lines, sep, is_psv),
        lines.len() == 0 ==> header_after(asked, lines, sep, is_psv) == asked,
        lines.len() > 0 && is_blank(lines[0]) ==> !header_after(asked, lines, sep, is_psv),
        header_after(false, lines, sep, is_psv) ==> header_after(true, lines, sep, is_psv),
{
}

/// A header that was not asked for is there where a blank line comes right behind the first
/// line, and behind the blank lines a line with a separator that begins a row: one that
/// begins with the separator, or any where the cells do not.
pub proof fn law_implied_header(lines: Seq<Seq<char>>, g: int, sep: Seq<char>, is_psv: bool)
    requires
        1 < g < lines.len(),
        !is_blank(lines[0]),
        forall|k: int| 1 <= k < g ==> is_blank(#[trigger] lines[k]),
        !is_blank(lines[g]),
    ensures
        header_after(false, lines, sep, is_psv) ==> has_sep(trim_end_spec(lines[g]), sep),
        has_sep(trim_end_spec(lines[g]), sep) && (!is_psv || starts_with_spec(
            trim_spec(lines[g]),
            sep,
        )) ==> header_after(false, lines, sep, is_psv),
        is_psv && !starts_with_spec(trim_spec(lines[g]), sep) && !new_row_start(
            trim_end_spec(lines[g]),
            sep,
            is_psv,
        ) ==> !header_after(false, lines, sep, is_psv),
{
    lemma_first_text(lines, 1);
    let f = first_text(lines, 1);
    if f < g {
        assert(is_blank(lines[f]));
    } else if g < f {
        assert(is_blank(lines[g]));
    }
    assert(first_text(lines, 0) == 0);
    assert(is_blank(lines[1]));
    lemma_trim_both(lines[g]);
}

/// Without a blank line right behind the first line there is no header but one that was
/// asked for.
pub proof fn law_no_implied_header(lines: Seq<Seq<char>>, sep: Seq<char>, is_psv: bool)
    requires
        lines.len() > 0 ==> !is_blank(lines[0]),
        lines.len() > 1 ==> !is_blank(lines[1]),
    ensures
        !header_after(false, lines, sep, is_psv),
{
}

/// White space is taken away from both ends in either order.
proof fn lemma_trim_both(line: Seq<char>)
    ensures
        trim_start_spec(trim_end_spec(line)) == trim_spec(line),
{
    let n = trimmed_len(line);
    let m = leading_ws(line);
    lemma_trimmed_len(line);
    lemma_leading_ws(line);
    let t = trim_end_spec(line);
    let u = trim_start_spec(line);
    lemma_leading_ws(t);
    lemma_trimmed_len(u);
    assert(forall|k: int| 0 <= k < t.len() ==> t[k] == line[k]);
    assert(forall|k: int| 0 <= k < u.len() ==> u[k] == line[m + k]);
    if m >= n {
        if n > 0 {
            assert(is_ws(line[n - 1]));
        }
        if trimmed_len(u) > 0 {
            assert(is_ws(line[m + trimmed_len(u) - 1]));
        }
    } else {
        let a = leading_ws(t);
        if a < m {
            assert(is_ws(line[a]));
        } else if m < a {
            assert(is_ws(t[m]));
        }
        let b = trimmed_len(u);
        if m + b < n {
            assert(is_ws(u[n - 1 - m]));
        } else if n < m + b {
            assert(is_ws(line[m + b - 1]));
        }
    }
    assert(trim_start_spec(t) =~= trim_spec(line));
}

// ---------------------------------------------------------------------------
// Executable operations: single lines.
// ---------------------------------------------------------------------------

fn blank_line(line: &str) -> (r: bool)
    ensures
        r == is_blank(line@),
{
    trim_end(line).unicode_len() == 0
}

/// Whether the text before position `sep_pos` is a specifier, flush against it.
pub fn validate_row_start_at(line: &str, sep_pos: usize) -> (r: bool)
    requires
        sep_pos <= line@.len(),
    ensures
        r == starts_row_at(line@, sep_pos as int),
{
    let before = line.substring_char(0, sep_pos);
    assert(before@ =~= line@.take(sep_pos as int));
    !ends_in_whitespace(before) && full_spec(trim_start(before)).is_some()
}

/// Whether a line begins a row by a specifier before its first separator, as
/// `a|`, `2+|` and `^.>2+s|` do.
pub fn is_new_row_start(line: &str, separator: &Separator<'_>, is_psv: bool) -> (r: bool)
    requires
        separator.wf(),
    ensures
        r == new_row_start(line@, separator.raw@, is_psv),
{
    if !is_psv {
        return false;
    }
    match find_first_separator(line, separator) {
        Some(pos) => validate_row_start_at(line, pos),
        None => false,
    }
}

/// The columns that the cells of a line take.
pub fn count_cell_colspans(line: &str, separator: &Separator<'_>, is_psv: bool) -> (r: usize)
    requires
        separator.wf(),
    ensures
        r == line_columns(line@, separator.raw@, is_psv),
{
    if !line_has_unescaped_separator(line, separator) {
        return 0;
    }
    let parts = split_line(line, separator);
    let ghost pv = split_spec(line@, separator.raw@);
    let n: usize = parts.len();
    proof {
        lemma_has_sep_count(line@, separator.raw@);
        lemma_split_len(line@, separator.raw@);
        lemma_line_cells(line@, 0, separator.raw@, is_psv);
        assert(parts.deep_view().len() == n);
        assert(pv[n - 1] == parts@[n - 1].deep_view());
        assert(pv[n - 2] == parts@[n - 2].deep_view());
    }
    // The bytes of a line are counted by a machine integer, so the offsets in it fit.
    let _bytes = byte_len(line);
    let mut one: Vec<&str> = Vec::new();
    one.push(line);
    let mut starts: Vec<usize> = Vec::new();
    starts.push(0);
    assert(one.deep_view() =~= seq![line@]);
    assert(ints(starts@) =~= seq![0int]);
    let mut cells = parse_row(one.as_slice(), starts.as_slice(), separator, is_psv);
    let ghost cv = cells.deep_view();
    assert(cv.len() == cells@.len());
    if trim(parts[n - 1].content.as_str()).unicode_len() == 0 && !part_ends_with_spec(
        parts[n - 2].content.as_str(),
    ) {
        let _ = cells.pop();
        assert(cells.deep_view() =~= cv.drop_last());
    }
    row_columns(&cells)
}

// ---------------------------------------------------------------------------
// Executable operations: the lines of a body.
// ---------------------------------------------------------------------------

fn skip_blank(lines: &[&str], from: usize) -> (r: usize)
    requires
        from <= lines@.len(),
    ensures
        r == first_text(lines.deep_view(), from as int),
        from <= r <= lines@.len(),
{
    let mut i: usize = from;
    while i < lines.len()
        invariant
            from <= i <= lines@.len(),
            first_text(lines.deep_view(), from as int) == first_text(lines.deep_view(), i as int),
        decreases lines.len() - i,
    {
        assert(lines.deep_view()[i as int] == lines@[i as int]@);
        if !blank_line(lines[i]) {
            return i;
        }
        i += 1;
    }
    i
}

fn separator_led(line: &str, separator: &Separator<'_>) -> (r: bool)
    ensures
        r == is_separator_led(line@, separator.raw@),
{
    starts_with(trim_start(trim_end(line)), separator.raw)
}

/// Whether the next line that is not blank continues the row.
pub fn next_nonblank_is_row_continuation(
    lines: &[&str],
    from: usize,
    separator: &Separator<'_>,
    is_psv: bool,
) -> (r: bool)
    requires
        separator.wf(),
        from <= lines@.len(),
    ensures
        r == continues_row(lines.deep_view(), from as int, separator.raw@, is_psv),
{
    if !is_psv {
        return false;
    }
    let g = skip_blank(lines, from);
    if g >= lines.len() {
        return false;
    }
    assert(lines.deep_view()[g as int] == lines@[g as int]@);
    !separator_led(lines[g], separator) && !is_new_row_start(trim_end(lines[g]), separator, is_psv)
}

/// Whether the first line that is not blank, from `start_idx` on, holds a
/// separator.
pub fn detect_header_after_first_row(
    lines: &[&str],
    start_idx: usize,
    separator: &Separator<'_>,
) -> (r: bool)
    requires
        separator.wf(),
        start_idx <= lines@.len(),
    ensures
        r == separator_follows(lines.deep_view(), start_idx as int, separator.raw@),
{
    let g = skip_blank(lines, start_idx);
    if g >= lines.len() {
        return false;
    }
    assert(lines.deep_view()[g as int] == lines@[g as int]@);
    line_has_unescaped_separator(trim_end(lines[g]), separator)
}

fn header_implied(lines: &[&str], separator: &Separator<'_>, is_psv: bool) -> (r: bool)
    requires
        separator.wf(),
    ensures
        r == implies_header(lines.deep_view(), separator.raw@, is_psv),
{
    let f = skip_blank(lines, 0);
    if f >= lines.len() || f + 1 >= lines.len() {
        return false;
    }
    assert(lines.deep_view()[f + 1] == lines@[f + 1]@);
    blank_line(lines[f + 1]) && detect_header_after_first_row(lines, f + 1, separator)
        && !next_nonblank_is_row_continuation(lines, f + 1, separator, is_psv)
}

fn row_on_one_line(lines: &[&str], i: usize, separator: &Separator<'_>, is_psv: bool) -> (r: bool)
    requires
        separator.wf(),
        i < lines@.len(),
    ensures
        r == is_row_line(lines.deep_view(), i as int, separator.raw@, is_psv),
{
    assert(lines.deep_view()[i as int] == lines@[i as int]@);
    let line = trim_end(lines[i]);
    if !is_psv {
        return contains(line, separator.raw);
    }
    if !line_has_unescaped_separator(line, separator) {
        return false;
    }
    let parts = split_line(line, separator);
    let n: usize = parts.len();
    let ghost pv = split_spec(line@, separator.raw@);
    assert(pv.len() == n);
    if n <= 2 {
        return false;
    }
    assert(pv[n - 1] == parts@[n - 1].deep_view());
    assert(pv[n - 2] == parts@[n - 2].deep_view());
    if trim(parts[n - 1].content.as_str()).unicode_len() == 0 && part_ends_with_spec(
        parts[n - 2].content.as_str(),
    ) {
        return false;
    }
    !next_nonblank_is_row_continuation(lines, i + 1, separator, is_psv)
}

/// The lines of a row that stretches over several lines.
fn collect_row<'a>(
    lines: &[&'a str],
    start: usize,
    separator: &Separator<'_>,
    is_psv: bool,
    ncols: Option<usize>,
) -> (r: (Vec<&'a str>, usize))
    requires
        separator.wf(),
        start <= lines@.len(),
    ensures
        (r.0.deep_view(), r.1 as int) == collect(
            lines.deep_view(),
            start as int,
            Seq::empty(),
            0,
            false,
            (Layout { sep: separator.raw@, is_psv, ncols }),
        ),
        start <= r.1 <= lines@.len(),
{
    let ghost lv = lines.deep_view();
    let ghost lay = Layout { sep: separator.raw@, is_psv, ncols };
    let ghost want = collect(lv, start as int, Seq::empty(), 0, false, lay);
    let mut row: Vec<&'a str> = Vec::new();
    let mut columns: usize = 0;
    let mut paragraph = false;
    let mut i: usize = start;
    assert(row.deep_view() =~= Seq::empty());
    while i < lines.len()
        invariant
            start <= i <= lines@.len(),
            separator.wf(),
            lv == lines.deep_view(),
            lay == (Layout { sep: separator.raw@, is_psv, ncols }),
            want == collect(lv, i as int, row.deep_view(), columns as int, paragraph, lay),
        ensures
            start <= i <= lines@.len(),
            want == (row.deep_view(), i as int),
        decreases lines.len() - i,
    {
        let line = trim_end(lines[i]);
        let ghost before = row.deep_view();
        assert(before.len() == row@.len());
        assert(lv[i as int] == lines@[i as int]@);
        if line.unicode_len() == 0 {
            if next_nonblank_is_row_continuation(lines, i + 1, separator, is_psv) {
                row.push(line);
                assert(row.deep_view() =~= before.push(line@));
                i += 1;
                continue;
            }
            break;
        }
        let started = row.len() > 0;
        let led = is_psv && starts_with(line, separator.raw);
        if started && is_new_row_start(line, separator, is_psv) {
            break;
        }
        if paragraph && led && count_unescaped_separators(line, separator) > 1 {
            break;
        }
        let full = match ncols {
            Some(expected) => columns >= expected,
            None => false,
        };
        if started && led && full {
            break;
        }
        if started && is_psv && !led {
            paragraph = true;
        }
        columns = columns.saturating_add(count_cell_colspans(line, separator, is_psv));
        row.push(line);
        assert(row.deep_view() =~= before.push(line@));
        i += 1;
    }
    (row, i)
}

/// Append the lines from `i` on that continue the last cell behind a blank line; the
/// lines start at the offsets `starts`. Gives the line behind them.
pub fn handle_cross_row_continuation(
    lines: &[&str],
    starts: &[usize],
    i: usize,
    rows: &mut Vec<Vec<ParsedCell>>,
    separator: &Separator<'_>,
) -> (r: usize)
    requires
        separator.wf(),
        i <= lines@.len(),
        are_offsets(starts@, lines@),
    ensures
        (final(rows).deep_view(), r as int) == continued(
            old(rows).deep_view(),
            lines.deep_view(),
            ints(starts@),
            i as int,
            true,
            separator.raw@,
        ),
        i <= r <= lines@.len(),
{
    let ghost lv = lines.deep_view();
    let ghost at = ints(starts@);
    let ghost want = continued(rows.deep_view(), lv, at, i as int, true, separator.raw@);
    let mut k: usize = i;
    let mut first = true;
    while k < lines.len()
        invariant
            i <= k <= lines@.len(),
            separator.wf(),
            lv == lines.deep_view(),
            at == ints(starts@),
            are_offsets(starts@, lines@),
            want == continued(rows.deep_view(), lv, at, k as int, first, separator.raw@),
        ensures
            i <= k <= lines@.len(),
            want == (rows.deep_view(), k as int),
        decreases lines.len() - k,
    {
        let line = trim_end(lines[k]);
        let offset = starts[k];
        proof {
            assert(lv[k as int] == lines@[k as int]@);
            assert(at[k as int] == offset);
            lemma_trim_blen(lv[k as int]);
            lemma_has_sep_count(line@, separator.raw@);
        }
        if line.unicode_len() == 0 || count_unescaped_separators(line, separator) > 0 {
            break;
        }
        let ghost before = rows.deep_view();
        assert(before.len() == rows@.len());
        let join = if first {
            "\n\n"
        } else {
            "\n"
        };
        proof {
            reveal_strlit("\n\n");
            reveal_strlit("\n");
            assert("\n\n"@ =~= paragraph_break());
            assert("\n"@ =~= line_feed());
        }
        let end = end_of(offset, byte_len(line));
        match rows.pop() {
            None => {
                assert(rows.deep_view() =~= before);
            },
            Some(mut last) => {
                assert(rows.deep_view() =~= before.drop_last());
                assert(last.deep_view() =~= before.last());
                extend_last_cell(&mut last, line, offset, join, end);
                let ghost now = rows.deep_view();
                let ghost added = last.deep_view();
                rows.push(last);
                assert(rows.deep_view() =~= now.push(added));
            },
        }
        first = false;
        k += 1;
    }
    k
}

fn multiline_at_end(rows: &Vec<Vec<ParsedCell>>) -> (r: bool)
    ensures
        r == last_cell_multiline(rows.deep_view()),
{
    let n: usize = rows.len();
    if n == 0 {
        return false;
    }
    let row = &rows[n - 1];
    assert(rows.deep_view().last() == row.deep_view());
    let m: usize = row.len();
    if m == 0 {
        return false;
    }
    assert(row.deep_view().last() == row@[m - 1].deep_view());
    contains_char(row[m - 1].content.as_str(), '\n')
}

/// Add the cells of a row to the rows, or to the last row as long as it is not
/// full and `merge` is set.
fn place_row(
    rows: &mut Vec<Vec<ParsedCell>>,
    cells: Vec<ParsedCell>,
    merge: bool,
    ncols: Option<usize>,
)
    ensures
        final(rows).deep_view() == add_row(
            old(rows).deep_view(),
            cells.deep_view(),
            merge,
            ncols,
        ),
{
    let ghost before = rows.deep_view();
    let ghost cv = cells.deep_view();
    assert(before.len() == rows@.len());
    let n: usize = rows.len();
    if merge && n > 0 {
        match ncols {
            Some(expected) => {
                assert(before.last() == rows@[n - 1].deep_view());
                if row_columns(&rows[n - 1]) < expected {
                    match rows.pop() {
                        Some(mut last) => {
                            let mut more = cells;
                            assert(rows.deep_view() =~= before.drop_last());
                            assert(last.deep_view() =~= before.last());
                            let ghost lastv = last@;
                            let ghost morev = more@;
                            last.append(&mut more);
                            assert(last.deep_view() =~= before.last() + cv) by {
                                assert(last@ =~= lastv + morev);
                            }
                            let ghost now = rows.deep_view();
                            let ghost added = last.deep_view();
                            rows.push(last);
                            assert(rows.deep_view() =~= now.push(added));
                            return;
                        },
                        None => {
                            return;
                        },
                    }
                }
            },
            None => {},
        }
    }
    rows.push(cells);
    assert(rows.deep_view() =~= before.push(cv));
}

/// Group the lines of a body, which start at the offsets `starts`, into rows.
fn group_rows(
    lines: &[&str],
    starts: &[usize],
    separator: &Separator<'_>,
    is_psv: bool,
    ncols: Option<usize>,
) -> (r: Vec<Vec<ParsedCell>>)
    requires
        separator.wf(),
        are_offsets(starts@, lines@),
    ensures
        r.deep_view() == grouped(
            lines.deep_view(),
            ints(starts@),
            at_start(),
            (Layout { sep: separator.raw@, is_psv, ncols }),
        ),
{
    let ghost lv = lines.deep_view();
    let ghost at = ints(starts@);
    let ghost lay = Layout { sep: separator.raw@, is_psv, ncols };
    let ghost want = grouped(lv, at, at_start(), lay);
    let mut rows: Vec<Vec<ParsedCell>> = Vec::new();
    let mut i: usize = 0;
    let mut cut = false;
    let mut multiline = false;
    assert(rows.deep_view() =~= Seq::empty());
    while i < lines.len()
        invariant
            i <= lines@.len(),
            separator.wf(),
            lv == lines.deep_view(),
            at == ints(starts@),
            are_offsets(starts@, lines@),
            lay == (Layout { sep: separator.raw@, is_psv, ncols }),
            want == grouped(
                lv,
                at,
                (Progress { i: i as int, rows: rows.deep_view(), cut, multiline }),
                lay,
            ),
        decreases lines.len() - i,
    {
        let ghost p = Progress { i: i as int, rows: rows.deep_view(), cut, multiline };
        let ghost next = step(lv, at, p, lay);
        proof {
            lemma_step_advances(lv, at, p, lay);
            lemma_row_lines(lv, i as int, lay);
            assert(lv[i as int] == lines@[i as int]@);
        }
        if i == 0 && blank_line(lines[0]) {
            i = 1;
            continue;
        }
        let alone = row_on_one_line(lines, i, separator, is_psv);
        let (row, j) = if alone {
            let line = trim_end(lines[i]);
            let mut row: Vec<&str> = Vec::new();
            row.push(line);
            assert(row.deep_view() =~= seq![line@]);
            (row, i + 1)
        } else {
            collect_row(lines, i, separator, is_psv, ncols)
        };
        let ghost rowv = row.deep_view();
        assert((rowv, j as int) == row_lines(lv, i as int, lay));
        assert(rowv.len() == row@.len());
        if row.len() > 0 {
            let places = vstd::slice::slice_subrange(starts, i, j);
            assert(ints(places@) =~= at.subrange(i as int, j as int));
            assert forall|k: int| #![trigger places@[k]] 0 <= k < places@.len() implies places@[k]
                + blen(row@[k]@) <= usize::MAX by {
                assert(rowv[k] == row@[k]@);
                assert(lv[i + k] == lines@[i + k]@);
                lemma_trim_blen(lv[i + k]);
                assert(places@[k] == starts@[i + k]);
            }
            let cells = parse_row(row.as_slice(), places, separator, is_psv);
            place_row(&mut rows, cells, !alone && (!cut || multiline), ncols);
        }
        let k = skip_blank(lines, j);
        let m = if k > j {
            handle_cross_row_continuation(lines, starts, k, &mut rows, separator)
        } else {
            k
        };
        cut = k > j && m == k;
        multiline = multiline_at_end(&rows);
        assert(next == (Progress { i: m as int, rows: rows.deep_view(), cut, multiline }));
        i = m;
    }
    rows
}

/// The cells of the first row as it is written.
fn read_first_row(
    lines: &[&str],
    starts: &[usize],
    separator: &Separator<'_>,
    is_psv: bool,
) -> (r: Vec<ParsedCell>)
    requires
        separator.wf(),
        are_offsets(starts@, lines@),
    ensures
        r.deep_view() == first_row_cells(
            lines.deep_view(),
            ints(starts@),
            separator.raw@,
            is_psv,
        ),
{
    let ghost lv = lines.deep_view();
    let start = skip_blank(lines, 0);
    let ghost want = first_row_end(lv, start as int, start as int, separator.raw@, is_psv);
    let mut j: usize = start;
    let mut row: Vec<&str> = Vec::new();
    assert(row.deep_view() =~= lv.subrange(start as int, start as int));
    while j < lines.len()
        invariant
            start <= j <= lines@.len(),
            separator.wf(),
            lv == lines.deep_view(),
            row.deep_view() == lv.subrange(start as int, j as int),
            want == first_row_end(lv, start as int, j as int, separator.raw@, is_psv),
        ensures
            start <= j <= lines@.len(),
            row.deep_view() == lv.subrange(start as int, j as int),
            want == j,
        decreases lines.len() - j,
    {
        assert(lv[j as int] == lines@[j as int]@);
        let line = lines[j];
        if blank_line(line) {
            if !(j > start && next_nonblank_is_row_continuation(lines, j + 1, separator, is_psv)) {
                break;
            }
        } else if j > start && (separator_led(line, separator) || is_new_row_start(
            trim_end(line),
            separator,
            is_psv,
        )) {
            break;
        }
        let ghost before = row.deep_view();
        row.push(line);
        assert(row.deep_view() =~= before.push(line@));
        assert(before.push(line@) =~= lv.subrange(start as int, j + 1));
        j += 1;
    }
    let places = vstd::slice::slice_subrange(starts, start, j);
    assert(ints(places@) =~= ints(starts@).subrange(start as int, j as int));
    assert(row.deep_view().len() == row@.len());
    assert forall|k: int| #![trigger places@[k]] 0 <= k < places@.len() implies places@[k] + blen(
        row@[k]@,
    ) <= usize::MAX by {
        assert(row.deep_view()[k] == lv[start + k]);
        assert(lv[start + k] == lines@[start + k]@);
        assert(places@[k] == starts@[start + k]);
    }
    parse_row(row.as_slice(), places, separator, is_psv)
}

/// The number of columns where none is given.
fn columns_of_first_row(first: &Vec<ParsedCell>) -> (r: usize)
    ensures
        r == implicit_columns(first.deep_view()),
{
    let mut total: usize = 0;
    let mut i: usize = 0;
    let ghost all = first.deep_view();
    assert(all.take(0) =~= Seq::empty());
    while i < first.len()
        invariant
            i <= first@.len(),
            all == first.deep_view(),
            total == grid_row_width(all.take(i as int)),
        decreases first.len() - i,
    {
        total = total.saturating_add(cell_grid_width(&first[i]));
        assert(all[i as int] == first@[i as int].deep_view());
        i += 1;
        assert(all.take(i as int).drop_last() =~= all.take(i - 1));
    }
    assert(all.take(i as int) =~= all);
    if total < 1 {
        1
    } else {
        total
    }
}

/// Read the rows of a table body that begins at `base_offset`.
pub fn parse_body(
    text: &str,
    separator: &Separator<'_>,
    is_psv: bool,
    has_header: &mut bool,
    base_offset: usize,
    ncols: Option<usize>,
) -> (r: Result<Vec<Vec<ParsedCell>>, TableLimitViolation>)
    requires
        separator.wf(),
        base_offset + blen(text@) <= usize::MAX,
    ensures
        match r {
            Ok(rows) => body_rows(
                text@,
                base_offset as int,
                (Layout { sep: separator.raw@, is_psv, ncols }),
            ) == Ok::<Seq<Seq<CellV>>, LimitV>(rows.deep_view()),
            Err(e) => body_rows(
                text@,
                base_offset as int,
                (Layout { sep: separator.raw@, is_psv, ncols }),
            ) == Err::<Seq<Seq<CellV>>, LimitV>(e.deep_view()),
        },
        *final(has_header) == header_after(
            *old(has_header),
            lines_spec(text@),
            separator.raw@,
            is_psv,
        ),
{
    let (all, starts) = lines_at(text, base_offset);
    let ghost lv = lines_spec(text@);
    proof {
        assert(all.deep_view() == lv);
        assert(lv.len() == all@.len());
        lemma_offsets(text@, base_offset as int);
        assert(ints(starts@).len() == starts@.len());
        assert forall|k: int| #![trigger starts@[k]] 0 <= k < starts@.len() implies starts@[k]
            + blen(all@[k]@) <= usize::MAX by {
            assert(ints(starts@)[k] == starts@[k]);
            assert(lv[k] == all@[k]@);
        }
    }
    if !*has_header && header_implied(all.as_slice(), separator, is_psv) {
        *has_header = true;
    }
    if all.len() > 0 {
        assert(lv[0] == all@[0]@);
        if blank_line(all[0]) {
            *has_header = false;
        }
    }
    let rows = group_rows(all.as_slice(), starts.as_slice(), separator, is_psv, ncols);
    let ghost rv = rows.deep_view();
    assert(rv.len() == rows@.len());
    if !(is_psv && rows.len() > 0) {
        return match validate_table_limits(&rows) {
            Ok(_) => Ok(rows),
            Err(e) => Err(e),
        };
    }
    let n: usize = match ncols {
        Some(n) => n,
        None => {
            let first = read_first_row(all.as_slice(), starts.as_slice(), separator, is_psv);
            match validate_cell_specifiers(first.as_slice()) {
                Ok(_) => {},
                Err(e) => {
                    return Err(e);
                },
            }
            columns_of_first_row(&first)
        },
    };
    match validate_all_specifiers(&rows) {
        Ok(_) => {},
        Err(e) => {
            return Err(e);
        },
    }
    let out = grid_reflow(rows, n);
    match validate_table_limits(&out) {
        Ok(_) => Ok(out),
        Err(e) => Err(e),
    }
}

} // verus!

//! Where the cells of a table stand: within the body that they were read from, with
//! their text where they say it begins.

use crate::table::grid::{all_cells, copies, expanded, is_run_of, law_reflow_bounded, reflowed};
use crate::table::reader::table_rows;
use crate::table::row::{
    after_first_part, after_line, cells_from, extend_last, last_byte, lemma_row_part_front,
    lemma_row_parts_bounds, line_feed, part_cell, row_cells, row_parts, text_start, CellV,
};
use crate::table::rows::{
    add_row, at_start, continued, extend_last_row, first_row_cells, first_text, grouped,
    grouped_body, implicit_columns, is_blank, is_row_line, leading_spec, lemma_first_text,
    lemma_row_lines, lemma_step_advances, paragraph_break, row_lines, step, Layout, Progress,
};
use crate::table::separator::{
    as_written, escape, escapes, has_sep, law_parts_stand_as_written, lemma_escapes_front,
    lemma_piece_stands, split_spec, stands_at, PartV,
};
use crate::table::specifier::CellSpecifier;
use crate::text::{
    blen, leading_ws, lemma_blen_split, lemma_blen_subrange, lemma_leading_ws,
    lemma_lines_stand, lemma_trim_blen, lemma_trimmed_len, line_offsets, lines_spec, starts_from,
    trim_end_spec, trim_spec, trim_start_spec, trimmed_len,
};
use vstd::prelude::*;

verus! {

/// The body of a table, the offset that it begins at, and the separator of its cells.
pub struct Body {
    pub text: Seq<char>,
    pub base: int,
    pub sep: Seq<char>,
}

/// Whether the character at `p` is byte `at` of a text and is `c`, or the backslash that
/// escapes `c`, which then is the separator.
pub open spec fn shows(text: Seq<char>, sep: Seq<char>, c: char, at: int, p: int) -> bool {
    &&& 0 <= p < text.len()
    &&& at == blen(text.take(p))
    &&& text[p] == c || (text[p] == '\\' && p + 1 < text.len() && text[p + 1] == c && sep
        == seq![c])
}

/// Whether a content begins with the character at byte `at` of a text.
pub open spec fn begins_at(
    text: Seq<char>,
    sep: Seq<char>,
    content: Seq<char>,
    at: int,
) -> bool {
    exists|p: int| #[trigger] shows(text, sep, content[0], at, p)
}

/// Whether a place is a byte of the body, or the one behind it.
pub open spec fn is_place(body: Body, at: int) -> bool {
    body.base <= at <= body.base + blen(body.text)
}

/// Whether a cell stands in the body: its places do, and its text, if it has any,
/// begins where it is said to.
pub open spec fn cell_stands(cell: CellV, body: Body) -> bool {
    &&& is_place(body, cell.start)
    &&& is_place(body, cell.content_start)
    &&& is_place(body, cell.end)
    &&& cell.content.len() > 0 ==> begins_at(
        body.text,
        body.sep,
        cell.content,
        cell.content_start - body.base,
    )
}

/// Whether all cells do.
pub open spec fn cells_stand(cells: Seq<CellV>, body: Body) -> bool {
    forall|k: int| 0 <= k < cells.len() ==> cell_stands(#[trigger] cells[k], body)
}

/// Whether the cells of all rows do.
pub open spec fn rows_stand(rows: Seq<Seq<CellV>>, body: Body) -> bool {
    forall|r: int| 0 <= r < rows.len() ==> cells_stand(#[trigger] rows[r], body)
}

/// Whether a line stands in the body at the offset `at`.
spec fn line_stands(line: Seq<char>, at: int, body: Body) -> bool {
    exists|p: int| #[trigger] stands_at(body.text, line, at - body.base, p)
}

/// Whether all lines stand where they start.
spec fn lines_stand(lines: Seq<Seq<char>>, starts: Seq<int>, body: Body) -> bool {
    &&& lines.len() == starts.len()
    &&& forall|k: int|
        #![trigger lines[k]]
        #![trigger starts[k]]
        0 <= k < lines.len() ==> line_stands(lines[k], starts[k], body)
}

// ---------------------------------------------------------------------------
// One line.
// ---------------------------------------------------------------------------

/// The text of a part of a row begins where its cell says.
proof fn lemma_row_part_begins(line: Seq<char>, sep: Seq<char>, is_psv: bool, k: int)
    requires
        has_sep(line, sep),
        0 <= k < row_parts(line, sep, is_psv).len(),
    ensures
        ({
            let part = row_parts(line, sep, is_psv)[k];
            trim_spec(part.content).len() > 0 ==> begins_at(
                line,
                sep,
                trim_spec(part.content),
                text_start(part, 0, sep),
            )
        }),
{
    assert(sep != seq!['\\']);
    lemma_row_parts_bounds(line, sep, is_psv);
    let part = row_parts(line, sep, is_psv)[k];
    let whole = split_spec(line, sep)[k];
    lemma_row_part_front(line, sep, is_psv, k);
    law_parts_stand_as_written(line, sep, k);
    let written = as_written(whole.content, sep);
    let p = choose|p: int| #[trigger] stands_at(line, written, whole.start, p);
    let lead = leading_ws(part.content);
    lemma_leading_ws(part.content);
    lemma_trimmed_len(trim_start_spec(part.content));
    if trim_spec(part.content).len() > 0 {
        let first = trim_spec(part.content)[0];
        assert(lead < part.content.len());
        lemma_piece_stands(line, whole.content, sep, whole.start, p, lead, lead + 1);
        let one = whole.content.subrange(lead, lead + 1);
        assert(first == whole.content.take(part.content.len() as int)[lead]);
        assert(one =~= seq![first]);
        assert(part.content.take(lead) =~= whole.content.take(lead));
        let q = p + as_written(whole.content.take(lead), sep).len();
        let text = as_written(one, sep);
        assert(one.drop_first() =~= Seq::empty());
        reveal_with_fuel(escape, 2);
        assert(text =~= seq![first] || (text =~= seq!['\\', first] && sep =~= seq![first]));
        assert(text[0] == line[q]);
        if text.len() == 2 {
            assert(text[1] == line[q + 1]);
        }
        assert(shows(line, sep, first, text_start(part, 0, sep), q));
    }
}

/// What begins somewhere in a line begins in the body behind the start of the line.
proof fn lemma_begins_in_body(
    line: Seq<char>,
    content: Seq<char>,
    at: int,
    offset: int,
    body: Body,
)
    requires
        line_stands(line, offset, body),
        begins_at(line, body.sep, content, at),
    ensures
        begins_at(body.text, body.sep, content, offset + at - body.base),
{
    let text = body.text;
    let q = choose|q: int| #[trigger] stands_at(text, line, offset - body.base, q);
    let p = choose|p: int| #[trigger] shows(line, body.sep, content[0], at, p);
    assert(line.take(p) =~= text.subrange(q, q + p));
    lemma_blen_subrange(text, q, q + p);
    assert(line[p] == text[q + p]);
    if p + 1 < line.len() {
        assert(line[p + 1] == text[q + p + 1]);
    }
    assert(shows(text, body.sep, content[0], offset + at - body.base, q + p));
}

/// A line that stands in the body ends in it.
proof fn lemma_line_bounds(line: Seq<char>, offset: int, body: Body)
    requires
        line_stands(line, offset, body),
    ensures
        body.base <= offset,
        offset + blen(line) <= body.base + blen(body.text),
{
    let q = choose|q: int| #[trigger] stands_at(body.text, line, offset - body.base, q);
    lemma_blen_subrange(body.text, q, q + line.len());
    lemma_blen_split(body.text, q + line.len());
}

/// A line without separator begins with its first character.
proof fn lemma_line_begins(line: Seq<char>, offset: int, body: Body)
    requires
        line_stands(line, offset, body),
        line.len() > 0,
    ensures
        begins_at(body.text, body.sep, line, offset - body.base),
{
    let q = choose|q: int| #[trigger] stands_at(body.text, line, offset - body.base, q);
    assert(line[0] == body.text[q]);
    assert(shows(body.text, body.sep, line[0], offset - body.base, q));
}

/// The front of a line stands where the line does.
proof fn lemma_trimmed_line(line: Seq<char>, offset: int, body: Body)
    requires
        line_stands(line, offset, body),
    ensures
        line_stands(trim_end_spec(line), offset, body),
{
    let q = choose|q: int| #[trigger] stands_at(body.text, line, offset - body.base, q);
    let n = trimmed_len(line);
    lemma_trimmed_len(line);
    let front = trim_end_spec(line);
    assert(front =~= body.text.subrange(q, q + n));
    assert(stands_at(body.text, front, offset - body.base, q));
}

proof fn lemma_extend_last_stands(
    cells: Seq<CellV>,
    text: Seq<char>,
    at: int,
    join: Seq<char>,
    end: int,
    body: Body,
)
    requires
        cells_stand(cells, body),
        is_place(body, at),
        is_place(body, end),
        text.len() > 0 ==> begins_at(body.text, body.sep, text, at - body.base),
    ensures
        cells_stand(extend_last(cells, text, at, join, end), body),
{
    if cells.len() > 0 {
        let out = extend_last(cells, text, at, join, end);
        let last = cells[cells.len() - 1];
        assert(cell_stands(last, body));
        let longer = out[cells.len() - 1];
        assert(cell_stands(longer, body)) by {
            if last.content.len() > 0 {
                assert(longer.content[0] == last.content[0]);
            }
        }
        assert forall|k: int| 0 <= k < out.len() implies cell_stands(#[trigger] out[k], body) by {
            if k < cells.len() - 1 {
                assert(out[k] == cells[k]);
            }
        }
    }
}

/// The places of the text of a part.
proof fn lemma_text_places(part: PartV, offset: int, sep: Seq<char>, n: int)
    requires
        0 <= part.start,
        part.start + blen(part.content) + escapes(part.content, sep) <= n,
    ensures
        ({
            let at = text_start(part, offset, sep);
            let text = blen(trim_spec(part.content));
            &&& offset <= at <= at + text <= offset + n
            &&& offset <= last_byte(at, text) <= offset + n
        }),
{
    lemma_leading_ws(part.content);
    lemma_trim_blen(part.content);
    lemma_blen_split(part.content, leading_ws(part.content));
    lemma_escapes_front(part.content, sep, leading_ws(part.content));
}

proof fn lemma_cells_from_stand(
    cells: Seq<CellV>,
    line: Seq<char>,
    i: int,
    pending: Option<CellSpecifier>,
    offset: int,
    is_psv: bool,
    body: Body,
)
    requires
        0 <= i <= row_parts(line, body.sep, is_psv).len(),
        line_stands(line, offset, body),
        has_sep(line, body.sep),
        cells_stand(cells, body),
    ensures
        cells_stand(
            cells_from(
                cells,
                row_parts(line, body.sep, is_psv),
                i,
                pending,
                offset,
                body.sep,
                is_psv,
            ),
            body,
        ),
    decreases row_parts(line, body.sep, is_psv).len() - i,
{
    let parts = row_parts(line, body.sep, is_psv);
    if i < parts.len() {
        let part = parts[i];
        let text = trim_spec(part.content);
        let at = text_start(part, offset, body.sep);
        let end = last_byte(at, blen(text));
        lemma_row_parts_bounds(line, body.sep, is_psv);
        lemma_line_bounds(line, offset, body);
        lemma_text_places(part, offset, body.sep, blen(line) as int);
        lemma_row_part_begins(line, body.sep, is_psv, i);
        if text.len() > 0 {
            lemma_begins_in_body(line, text, text_start(part, 0, body.sep), offset, body);
        }
        if i == 0 && is_psv {
            let next = after_first_part(cells, part, offset, body.sep);
            assert(cells_stand(next, body)) by {
                if cells.len() > 0 {
                    assert(cell_stands(cells[cells.len() - 1], body));
                    lemma_extend_last_stands(
                        cells,
                        text,
                        at,
                        line_feed(),
                        if end > cells.last().end {
                            end
                        } else {
                            cells.last().end
                        },
                        body,
                    );
                }
            }
            let first = leading_spec(parts);
            assert(cells_from(cells, parts, i, pending, offset, body.sep, is_psv) == cells_from(
                next,
                parts,
                1,
                first,
                offset,
                body.sep,
                is_psv,
            ));
            lemma_cells_from_stand(next, line, 1, first, offset, is_psv, body);
        } else {
            let cell = part_cell(part, pending, offset, body.sep);
            let next = cells.push(cell);
            assert(cell_stands(cell, body));
            assert forall|k: int| 0 <= k < next.len() implies cell_stands(
                #[trigger] next[k],
                body,
            ) by {
                if k < cells.len() {
                    assert(next[k] == cells[k]);
                }
            }
            let left = if part.forced is Some {
                pending
            } else {
                None
            };
            lemma_cells_from_stand(next, line, i + 1, left, offset, is_psv, body);
        }
    }
}

proof fn lemma_after_line_stands(
    cells: Seq<CellV>,
    line: Seq<char>,
    offset: int,
    is_psv: bool,
    body: Body,
)
    requires
        line_stands(line, offset, body),
        cells_stand(cells, body),
    ensures
        cells_stand(after_line(cells, line, offset, body.sep, is_psv), body),
{
    if has_sep(line, body.sep) {
        lemma_cells_from_stand(cells, line, 0, None, offset, is_psv, body);
    } else {
        lemma_line_bounds(line, offset, body);
        if line.len() > 0 {
            lemma_line_begins(line, offset, body);
        }
        lemma_extend_last_stands(
            cells,
            line,
            offset,
            line_feed(),
            last_byte(offset, blen(line)),
            body,
        );
    }
}

/// The cells of a row stand in its lines.
proof fn lemma_row_cells_stand(
    lines: Seq<Seq<char>>,
    starts: Seq<int>,
    is_psv: bool,
    body: Body,
)
    requires
        lines.len() <= starts.len(),
        forall|k: int|
            #![trigger lines[k]]
            0 <= k < lines.len() ==> line_stands(lines[k], starts[k], body),
    ensures
        cells_stand(row_cells(lines, starts, body.sep, is_psv), body),
    decreases lines.len(),
{
    if lines.len() > 0 {
        let n = lines.len() - 1;
        let before = lines.drop_last();
        assert forall|k: int| #![trigger before[k]] 0 <= k < before.len() implies line_stands(
            before[k],
            starts[k],
            body,
        ) by {
            assert(before[k] == lines[k]);
        }
        lemma_row_cells_stand(before, starts, is_psv, body);
        assert(line_stands(lines[n], starts[n], body));
        lemma_after_line_stands(
            row_cells(before, starts, body.sep, is_psv),
            lines[n],
            starts[n],
            is_psv,
            body,
        );
    }
}

// ---------------------------------------------------------------------------
// The lines of a body.
// ---------------------------------------------------------------------------

proof fn lemma_concat_stands(a: Seq<CellV>, b: Seq<CellV>, body: Body)
    requires
        cells_stand(a, body),
        cells_stand(b, body),
    ensures
        cells_stand(a + b, body),
{
    assert forall|k: int| 0 <= k < (a + b).len() implies cell_stands(
        #[trigger] (a + b)[k],
        body,
    ) by {
        if k < a.len() {
            assert((a + b)[k] == a[k]);
        } else {
            assert((a + b)[k] == b[k - a.len()]);
        }
    }
}

proof fn lemma_add_row_stands(
    rows: Seq<Seq<CellV>>,
    cells: Seq<CellV>,
    merge: bool,
    ncols: Option<usize>,
    body: Body,
)
    requires
        rows_stand(rows, body),
        cells_stand(cells, body),
    ensures
        rows_stand(add_row(rows, cells, merge, ncols), body),
{
    let out = add_row(rows, cells, merge, ncols);
    if out.len() == rows.len() {
        lemma_concat_stands(rows[rows.len() - 1], cells, body);
    }
    assert forall|r: int| 0 <= r < out.len() implies cells_stand(#[trigger] out[r], body) by {
        if r < rows.len() - 1 || (r < rows.len() && out.len() > rows.len()) {
            assert(out[r] == rows[r]);
        }
    }
}

proof fn lemma_continued_stands(
    rows: Seq<Seq<CellV>>,
    lines: Seq<Seq<char>>,
    starts: Seq<int>,
    k: int,
    first: bool,
    body: Body,
)
    requires
        0 <= k <= lines.len(),
        lines_stand(lines, starts, body),
        rows_stand(rows, body),
    ensures
        rows_stand(continued(rows, lines, starts, k, first, body.sep).0, body),
    decreases lines.len() - k,
{
    if !(k >= lines.len() || is_blank(lines[k]) || has_sep(trim_end_spec(lines[k]), body.sep)) {
        let text = trim_end_spec(lines[k]);
        let at = starts[k];
        let join = if first {
            paragraph_break()
        } else {
            line_feed()
        };
        let next = extend_last_row(rows, text, at, join);
        lemma_trimmed_line(lines[k], at, body);
        lemma_line_bounds(text, at, body);
        if text.len() > 0 {
            lemma_line_begins(text, at, body);
        }
        if rows.len() > 0 {
            let last = rows[rows.len() - 1];
            assert(cells_stand(last, body));
            lemma_extend_last_stands(last, text, at, join, last_byte(at, blen(text)), body);
            assert forall|r: int| 0 <= r < next.len() implies cells_stand(
                #[trigger] next[r],
                body,
            ) by {
                if r < rows.len() - 1 {
                    assert(next[r] == rows[r]);
                }
            }
        }
        lemma_continued_stands(next, lines, starts, k + 1, false, body);
    }
}

proof fn lemma_step_stands(
    lines: Seq<Seq<char>>,
    starts: Seq<int>,
    p: Progress,
    lay: Layout,
    body: Body,
)
    requires
        0 <= p.i < lines.len(),
        body.sep == lay.sep,
        lines_stand(lines, starts, body),
        rows_stand(p.rows, body),
    ensures
        rows_stand(step(lines, starts, p, lay).rows, body),
{
    if !(p.i == 0 && is_blank(lines[0])) {
        let alone = is_row_line(lines, p.i, lay.sep, lay.is_psv);
        let (row, j) = row_lines(lines, p.i, lay);
        lemma_row_lines(lines, p.i, lay);
        let places = starts.subrange(p.i, j);
        assert forall|k: int| #![trigger row[k]] 0 <= k < row.len() implies line_stands(
            row[k],
            places[k],
            body,
        ) by {
            assert(line_stands(lines[p.i + k], starts[p.i + k], body));
            lemma_trimmed_line(lines[p.i + k], starts[p.i + k], body);
        }
        let cells = row_cells(row, places, lay.sep, lay.is_psv);
        lemma_row_cells_stand(row, places, lay.is_psv, body);
        let merge = !alone && (!p.cut || p.multiline);
        lemma_add_row_stands(p.rows, cells, merge, lay.ncols, body);
        let rows = if row.len() == 0 {
            p.rows
        } else {
            add_row(p.rows, cells, merge, lay.ncols)
        };
        lemma_first_text(lines, j);
        let k = first_text(lines, j);
        if k > j {
            lemma_continued_stands(rows, lines, starts, k, true, body);
        }
    }
}

proof fn lemma_grouped_stands(
    lines: Seq<Seq<char>>,
    starts: Seq<int>,
    p: Progress,
    lay: Layout,
    body: Body,
)
    requires
        0 <= p.i <= lines.len(),
        body.sep == lay.sep,
        lines_stand(lines, starts, body),
        rows_stand(p.rows, body),
    ensures
        rows_stand(grouped(lines, starts, p, lay), body),
    decreases lines.len() - p.i,
{
    if p.i < lines.len() {
        lemma_step_advances(lines, starts, p, lay);
        lemma_step_stands(lines, starts, p, lay, body);
        lemma_grouped_stands(lines, starts, step(lines, starts, p, lay), lay, body);
    }
}

// ---------------------------------------------------------------------------
// The grid.
// ---------------------------------------------------------------------------

proof fn lemma_all_cells_stand(rows: Seq<Seq<CellV>>, body: Body)
    requires
        rows_stand(rows, body),
    ensures
        cells_stand(all_cells(rows), body),
    decreases rows.len(),
{
    if rows.len() > 0 {
        let before = rows.drop_last();
        assert forall|r: int| 0 <= r < before.len() implies cells_stand(
            #[trigger] before[r],
            body,
        ) by {
            assert(before[r] == rows[r]);
        }
        lemma_all_cells_stand(before, body);
        assert(cells_stand(rows[rows.len() - 1], body));
        lemma_concat_stands(all_cells(before), rows.last(), body);
    }
}

proof fn lemma_expanded_stands(cells: Seq<CellV>, body: Body)
    requires
        cells_stand(cells, body),
    ensures
        cells_stand(expanded(cells), body),
    decreases cells.len(),
{
    if cells.len() > 0 {
        let before = cells.drop_last();
        assert forall|k: int| 0 <= k < before.len() implies cell_stands(
            #[trigger] before[k],
            body,
        ) by {
            assert(before[k] == cells[k]);
        }
        lemma_expanded_stands(before, body);
        assert(cell_stands(cells[cells.len() - 1], body));
        lemma_concat_stands(expanded(before), copies(cells.last()), body);
    }
}

proof fn lemma_reflowed_stands(rows: Seq<Seq<CellV>>, ncols: int, body: Body)
    requires
        ncols >= 0,
        rows_stand(rows, body),
    ensures
        rows_stand(reflowed(rows, ncols), body),
{
    if ncols > 0 {
        let cells = expanded(all_cells(rows));
        let out = reflowed(rows, ncols);
        lemma_all_cells_stand(rows, body);
        lemma_expanded_stands(all_cells(rows), body);
        law_reflow_bounded(rows, ncols);
        assert forall|r: int| 0 <= r < out.len() implies cells_stand(#[trigger] out[r], body) by {
            assert(is_run_of(out[r], cells));
            let (a, b) = choose|a: int, b: int|
                0 <= a <= b <= cells.len() && out[r] == #[trigger] cells.subrange(a, b);
            assert forall|k: int| 0 <= k < out[r].len() implies cell_stands(
                #[trigger] out[r][k],
                body,
            ) by {
                assert(out[r][k] == cells[a + k]);
            }
        }
    }
}

/// Every cell of a table that is read from a body stands in the body: its start, the
/// start of its text and its end are bytes of the body, or the one behind it, and the
/// text of a cell that has any begins with the character at the byte where it is said to
/// begin, or with the separator that a backslash there escapes. (Where the fields of a
/// body in comma-separated form begin is up to its reader.)
pub proof fn law_cells_stand_in_the_body(text: Seq<char>, offset: int, lay: Layout)
    ensures
        table_rows(text, offset, false, lay) matches Ok(rows) ==> rows_stand(
            rows,
            (Body { text, base: offset, sep: lay.sep }),
        ),
{
    let body = Body { text, base: offset, sep: lay.sep };
    let lines = lines_spec(text);
    let starts = line_offsets(text, offset);
    lemma_lines_stand(text, 0);
    assert forall|k: int|
        #![trigger lines[k]]
        #![trigger starts[k]]
        0 <= k < lines.len() implies line_stands(lines[k], starts[k], body) by {
        let p = starts_from(text, 0)[k];
        assert(stands_at(body.text, lines[k], starts[k] - body.base, p));
    }
    let rows = grouped_body(text, offset, lay);
    lemma_grouped_stands(lines, starts, at_start(), lay, body);
    let ncols = match lay.ncols {
        Some(n) => n as int,
        None => implicit_columns(first_row_cells(lines, starts, lay.sep, lay.is_psv)),
    };
    lemma_reflowed_stands(rows, ncols, body);
}

} // verus!

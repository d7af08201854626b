//! What holds of the cells and rows that a table is read to.

use crate::table::csv_rows::{
    blank_line_at, closing_quote, csv_cell, csv_implies_header, csv_separator, field_cells,
    field_position, field_stop, past_breaks, past_returns, record_end, record_rows, record_start,
};
use crate::table::grid::{
    all_cells, law_full_rows_stay, lemma_one_place_each, take_one_place, takes_one_place,
};
use crate::table::limits::{
    cell_within_limits, cells_violation, each_row_violation, law_limits, lemma_cells_within,
    row_violation, row_width, saturated, specifiers_violation, table_violation, LimitV,
    MAX_TABLE_COLUMNS, MAX_TABLE_ROWS,
};
use crate::table::reader::table_rows;
use crate::table::row::{
    after_first_part, after_line, cells_from, leads_with_spec, part_cell, row_cells, row_parts,
    trailing_spec, CellV,
};
use crate::table::rows::{
    add_row, at_start, collect, continued, continues_row, ends_row, first_row_cells, first_row_end,
    first_text, grouped, grouped_body, is_blank, is_row_line, lemma_first_text, lemma_offsets,
    line_columns, new_row_start, row_lines, step, Layout, Progress,
};
use crate::table::separator::{
    count_seps, has_sep, is_sep_at, lemma_next_sep, next_sep, split_spec, PartV,
};
use crate::table::specifier::{align_spec, first_part_spec, is_full_spec, CellSpecifier};
use crate::text::{
    blen, contains_spec, is_ws, last_ws, law_trimming, leading_ws, lemma_blen_ge_len,
    lemma_trim_blen, line_offsets, lines_spec, starts_with_spec, trim_end_spec, trim_spec,
    trim_start_spec,
};
use vstd::prelude::*;
use vstd::string::*;

verus! {

/// Whether a cell is formatted as a specifier says.
pub open spec fn is_formatted(cell: CellV, spec: CellSpecifier) -> bool {
    &&& cell.colspan == spec.colspan
    &&& cell.rowspan == spec.rowspan
    &&& cell.halign == spec.halign
    &&& cell.valign == spec.valign
    &&& cell.style == spec.style
    &&& cell.is_duplication == spec.is_duplication
    &&& cell.duplication_count == spec.duplication_count
}

/// Whether a cell takes one place and has no format of its own.
pub open spec fn is_plain(cell: CellV) -> bool {
    &&& cell.colspan == 1
    &&& cell.rowspan == 1
    &&& cell.halign is None
    &&& cell.valign is None
    &&& cell.style is None
    &&& !cell.is_duplication
    &&& cell.duplication_count == 1
}

proof fn lemma_cells(
    cells: Seq<CellV>,
    parts: Seq<PartV>,
    i: int,
    pending: Option<CellSpecifier>,
    offset: int,
    sep: Seq<char>,
    is_psv: bool,
)
    requires
        1 <= i <= parts.len() || (!is_psv && 0 <= i <= parts.len()),
    ensures
        ({
            let all = cells_from(cells, parts, i, pending, offset, sep, is_psv);
            &&& all.len() == cells.len() + (parts.len() - i)
            &&& forall|j: int| 0 <= j < cells.len() ==> #[trigger] all[j] == cells[j]
            &&& forall|k: int|
                #![trigger all[cells.len() + (k - i)]]
                i <= k < parts.len() ==> {
                    let cell = all[cells.len() + (k - i)];
                    &&& cell.content == trim_spec(parts[k].content)
                    &&& parts[k].forced matches Some(spec) ==> is_formatted(cell, spec)
                    &&& parts[k].forced is None && (pending is None || k > i && parts[i].forced
                        is None) ==> is_plain(cell)
                    &&& parts[k].forced is None && k == i && pending is Some ==> is_formatted(
                        cell,
                        pending->Some_0,
                    )
                }
        }),
    decreases parts.len() - i,
{
    if i < parts.len() {
        let cell = part_cell(parts[i], pending, offset, sep);
        let next = if parts[i].forced is Some {
            pending
        } else {
            None
        };
        let more = cells.push(cell);
        lemma_cells(more, parts, i + 1, next, offset, sep, is_psv);
        let all = cells_from(cells, parts, i, pending, offset, sep, is_psv);
        assert(all == cells_from(more, parts, i + 1, next, offset, sep, is_psv));
        assert forall|j: int| 0 <= j < cells.len() implies #[trigger] all[j] == cells[j] by {
            assert(all[j] == more[j]);
        }
        assert(all[cells.len() as int] == more[cells.len() as int]);
        assert forall|k: int|
            #![trigger all[cells.len() + (k - i)]]
            i <= k < parts.len() implies ({
            let c = all[cells.len() + (k - i)];
            &&& c.content == trim_spec(parts[k].content)
            &&& parts[k].forced matches Some(spec) ==> is_formatted(c, spec)
            &&& parts[k].forced is None && (pending is None || k > i && parts[i].forced is None)
                ==> is_plain(c)
            &&& parts[k].forced is None && k == i && pending is Some ==> is_formatted(
                c,
                pending->Some_0,
            )
        }) by {
            if k > i {
                assert(all[cells.len() + (k - i)] == all[more.len() + (k - (i + 1))]);
            } else {
                assert(all[cells.len() + (k - i)] == cell);
            }
        }
    }
}

// ---------------------------------------------------------------------------
// Cells.
// ---------------------------------------------------------------------------

/// A line of a table whose cells begin with a separator makes a cell of each part behind
/// the first, with the text of the part and no white space round it. A specifier before
/// the first separator is that of the first cell, and one that stands at the end of a part
/// is that of the cell behind it. Every other cell is plain.
pub proof fn law_cells_of_a_line(line: Seq<char>, offset: int, sep: Seq<char>)
    requires
        has_sep(line, sep),
        split_spec(line, sep).len() > 0,
    ensures
        ({
            let cells = row_cells(seq![line], seq![offset], sep, true);
            let parts = split_spec(line, sep);
            let continues = !is_full_spec(trim_spec(parts[0].content));
            &&& cells.len() == parts.len() - 1
            &&& forall|k: int|
                #![trigger cells[k - 1]]
                1 <= k < parts.len() ==> {
                    let found = trailing_spec(parts[k].content, continues);
                    let before = trailing_spec(parts[k - 1].content, continues);
                    &&& cells[k - 1].content == trim_spec(
                        if k + 1 < parts.len() && found is Some {
                            found->Some_0.0
                        } else {
                            parts[k].content
                        },
                    )
                    &&& before is Some ==> is_formatted(cells[k - 1], before->Some_0.1)
                }
            &&& parts.len() > 1 && leads_with_spec(parts[0].content) && trailing_spec(
                parts[0].content,
                continues,
            ) is None && parts[1].forced is None ==> is_formatted(
                cells[0],
                first_part_spec(trim_spec(parts[0].content)).0,
            )
            &&& !leads_with_spec(row_parts(line, sep, true)[0].content) ==> forall|k: int|
                #![trigger cells[k - 1]]
                1 <= k < parts.len() && trailing_spec(parts[k - 1].content, continues) is None
                    && parts[k].forced is None ==> is_plain(cells[k - 1])
        }),
{
    let one = seq![line];
    let none = Seq::<CellV>::empty();
    let parts = row_parts(line, sep, true);
    assert(one.drop_last() =~= Seq::<Seq<char>>::empty());
    assert(row_cells(one.drop_last(), seq![offset], sep, true) =~= none);
    assert(after_first_part(none, parts[0], offset, sep) =~= none);
    let pending = if leads_with_spec(parts[0].content) {
        Some(first_part_spec(trim_spec(parts[0].content)).0)
    } else {
        None
    };
    let cells = row_cells(one, seq![offset], sep, true);
    assert(cells == cells_from(none, parts, 0, None, offset, sep, true));
    assert(cells == cells_from(none, parts, 1, pending, offset, sep, true));
    lemma_cells(none, parts, 1, pending, offset, sep, true);
    let whole = split_spec(line, sep);
    let continues = !is_full_spec(trim_spec(whole[0].content));
    assert forall|k: int|
        #![trigger cells[k - 1]]
        1 <= k < whole.len() implies ({
        let found = trailing_spec(whole[k].content, continues);
        let before = trailing_spec(whole[k - 1].content, continues);
        &&& cells[k - 1].content == trim_spec(
            if k + 1 < whole.len() && found is Some {
                found->Some_0.0
            } else {
                whole[k].content
            },
        )
        &&& before is Some ==> is_formatted(cells[k - 1], before->Some_0.1)
        &&& pending is None && before is None && whole[k].forced is None ==> is_plain(cells[k - 1])
    }) by {
        assert(cells[k - 1] == cells[none.len() + (k - 1)]);
        assert(parts[k].content == if k + 1 < whole.len() && trailing_spec(
            whole[k].content,
            continues,
        ) is Some {
            trailing_spec(whole[k].content, continues)->Some_0.0
        } else {
            whole[k].content
        });
    }
    if parts.len() > 1 {
        assert(cells[0] == cells[none.len() + (1 - 1)]);
    }
}

/// A line of a table whose cells are only parted by separators makes a plain cell of each
/// part, with its text and no white space round it.
pub proof fn law_cells_between_separators(line: Seq<char>, offset: int, sep: Seq<char>)
    requires
        has_sep(line, sep),
    ensures
        ({
            let cells = row_cells(seq![line], seq![offset], sep, false);
            let parts = split_spec(line, sep);
            &&& cells.len() == parts.len()
            &&& forall|k: int|
                #![trigger cells[k]]
                0 <= k < parts.len() ==> cells[k].content == trim_spec(parts[k].content) && (
                parts[k].forced is None ==> is_plain(cells[k]))
        }),
{
    let one = seq![line];
    let none = Seq::<CellV>::empty();
    let parts = split_spec(line, sep);
    assert(one.drop_last() =~= Seq::<Seq<char>>::empty());
    assert(row_cells(one.drop_last(), seq![offset], sep, false) =~= none);
    let cells = row_cells(one, seq![offset], sep, false);
    assert(cells == cells_from(none, parts, 0, None, offset, sep, false));
    lemma_cells(none, parts, 0, None, offset, sep, false);
    assert forall|k: int| #![trigger cells[k]] 0 <= k < parts.len() implies cells[k].content
        == trim_spec(parts[k].content) && (parts[k].forced is None ==> is_plain(cells[k])) by {
        assert(cells[k] == cells[none.len() + (k - 0)]);
    }
}

/// A line without a separator goes on with the text of the last cell of its row, on a line
/// of its own; the other cells and the format of the last stay as they are.
pub proof fn law_lines_go_on_with_the_last_cell(
    lines: Seq<Seq<char>>,
    starts: Seq<int>,
    line: Seq<char>,
    sep: Seq<char>,
    is_psv: bool,
)
    requires
        !has_sep(line, sep),
        row_cells(lines, starts, sep, is_psv).len() > 0,
    ensures
        ({
            let before = row_cells(lines, starts, sep, is_psv);
            let after = row_cells(lines.push(line), starts, sep, is_psv);
            let last = before.last();
            &&& after.len() == before.len()
            &&& forall|k: int| 0 <= k < before.len() - 1 ==> after[k] == #[trigger] before[k]
            &&& after.last().content == if last.content.len() == 0 {
                line
            } else {
                last.content + seq!['\n'] + line
            }
            &&& after.last().start == last.start
            &&& after.last().content_start == if last.content.len() == 0 {
                starts[lines.len() as int]
            } else {
                last.content_start
            }
            &&& blen(line) > 0 ==> after.last().end == starts[lines.len() as int] + blen(line) - 1
            &&& after.last().colspan == last.colspan
            &&& after.last().rowspan == last.rowspan
            &&& after.last().halign == last.halign
            &&& after.last().valign == last.valign
            &&& after.last().style == last.style
            &&& after.last().is_duplication == last.is_duplication
            &&& after.last().duplication_count == last.duplication_count
        }),
{
    assert(lines.push(line).drop_last() =~= lines);
}

proof fn lemma_last_ws_at(s: Seq<char>, at: int)
    requires
        0 <= at < s.len(),
        is_ws(s[at]),
        forall|k: int| at < k < s.len() ==> !is_ws(#[trigger] s[k]),
    ensures
        last_ws(s) == at,
    decreases s.len(),
{
    if at < s.len() - 1 {
        assert(!is_ws(s[s.len() - 1]));
        let front = s.drop_last();
        assert forall|k: int| at < k < front.len() implies !is_ws(#[trigger] front[k]) by {
            assert(front[k] == s[k]);
        }
        lemma_last_ws_at(front, at);
    }
}

/// A specifier with a span or an alignment behind a text and a space, flush against the
/// separator, is that of the cell behind the separator, and the text is what stands before
/// it.
pub proof fn law_specifiers_behind_a_text(text: Seq<char>, spec: Seq<char>, continues: bool)
    requires
        text.len() > 0 ==> !is_ws(text.last()),
        is_full_spec(spec),
        forall|k: int| 0 <= k < spec.len() ==> !is_ws(#[trigger] spec[k]),
        spec.contains('+') || spec.contains('*') || spec.contains('<') || spec.contains('^')
            || spec.contains('>'),
        align_spec(spec, 0).2 == 0,
    ensures
        trailing_spec(text + seq![' '] + spec, continues) == Some(
            (text, first_part_spec(spec).0),
        ),
{
    let s = text + seq![' '] + spec;
    let at = text.len() as int;
    assert(s[at] == ' ');
    assert forall|k: int| at < k < s.len() implies !is_ws(#[trigger] s[k]) by {
        assert(s[k] == spec[k - at - 1]);
    }
    lemma_last_ws_at(s, at);
    assert(s.skip(at + 1) =~= spec);
    assert(s.take(at) =~= text);
    assert(s.last() == spec.last());
    assert(!is_ws(spec[spec.len() - 1]));
    assert(trim_end_spec(text) =~= text);
}

// ---------------------------------------------------------------------------
// Rows.
// ---------------------------------------------------------------------------

/// Whether a line begins with the separator, has at least two cells, and ends in the text
/// of the last.
pub open spec fn is_whole_row(line: Seq<char>, sep: Seq<char>) -> bool {
    let parts = split_spec(trim_end_spec(line), sep);
    &&& !is_blank(line)
    &&& starts_with_spec(trim_start_spec(trim_end_spec(line)), sep)
    &&& has_sep(trim_end_spec(line), sep)
    &&& parts.len() > 2
    &&& trim_spec(parts[parts.len() - 1].content).len() > 0
}

/// The rows of lines that are rows of their own.
pub open spec fn single_rows(
    lines: Seq<Seq<char>>,
    starts: Seq<int>,
    n: int,
    sep: Seq<char>,
) -> Seq<Seq<CellV>> {
    Seq::new(
        n as nat,
        |k: int| row_cells(seq![trim_end_spec(lines[k])], seq![starts[k]], sep, true),
    )
}

proof fn lemma_whole_rows(
    lines: Seq<Seq<char>>,
    starts: Seq<int>,
    p: Progress,
    lay: Layout,
)
    requires
        lay.is_psv,
        starts.len() == lines.len(),
        0 <= p.i <= lines.len(),
        p.rows == single_rows(lines, starts, p.i, lay.sep),
        forall|k: int| 0 <= k < lines.len() ==> is_whole_row(#[trigger] lines[k], lay.sep),
    ensures
        grouped(lines, starts, p, lay) == single_rows(lines, starts, lines.len() as int, lay.sep),
    decreases lines.len() - p.i,
{
    if p.i < lines.len() {
        assert(is_whole_row(lines[p.i], lay.sep));
        if p.i + 1 < lines.len() {
            assert(is_whole_row(lines[p.i + 1], lay.sep));
        }
        assert(first_text(lines, p.i + 1) == p.i + 1);
        let parts = split_spec(trim_end_spec(lines[p.i]), lay.sep);
        assert(parts.last() == parts[parts.len() - 1]);
        assert(is_row_line(lines, p.i, lay.sep, lay.is_psv));
        assert(row_lines(lines, p.i, lay) == (seq![trim_end_spec(lines[p.i])], p.i + 1));
        assert(starts.subrange(p.i, p.i + 1) =~= seq![starts[p.i]]);
        assert(is_whole_row(lines[0], lay.sep));
        let next = step(lines, starts, p, lay);
        assert(next.i == p.i + 1);
        assert(next.rows =~= single_rows(lines, starts, p.i + 1, lay.sep));
        lemma_whole_rows(lines, starts, next, lay);
    }
}

/// Lines that each begin with the separator and hold at least two cells are a row each, in
/// the order of the lines, whatever number of columns the table has.
pub proof fn law_each_line_is_a_row(lines: Seq<Seq<char>>, starts: Seq<int>, lay: Layout)
    requires
        lay.is_psv,
        starts.len() == lines.len(),
        forall|k: int| 0 <= k < lines.len() ==> is_whole_row(#[trigger] lines[k], lay.sep),
    ensures
        grouped(lines, starts, at_start(), lay).len() == lines.len(),
        forall|k: int|
            0 <= k < lines.len() ==> #[trigger] grouped(lines, starts, at_start(), lay)[k]
                == row_cells(seq![trim_end_spec(lines[k])], seq![starts[k]], lay.sep, true),
{
    assert(at_start().rows =~= single_rows(lines, starts, 0, lay.sep));
    lemma_whole_rows(lines, starts, at_start(), lay);
}

/// A row that stretches over several lines goes on with a line that begins with the
/// separator until it has its columns; without a number of columns it goes on.
pub proof fn law_rows_end_with_their_columns(line: Seq<char>, lay: Layout, columns: int)
    requires
        lay.is_psv,
        starts_with_spec(line, lay.sep),
        !new_row_start(line, lay.sep, true),
    ensures
        lay.ncols matches Some(n) ==> ends_row(line, lay, true, columns, false) == (columns >= n),
        lay.ncols is None ==> !ends_row(line, lay, true, columns, false),
        !ends_row(line, lay, false, columns, false),
{
}

/// A line without a separator behind a blank line is a new paragraph of the last cell, and
/// a line behind it another line of that paragraph. No other cell changes.
pub proof fn law_paragraphs_of_a_cell(
    rows: Seq<Seq<CellV>>,
    lines: Seq<Seq<char>>,
    starts: Seq<int>,
    k: int,
    first: bool,
    sep: Seq<char>,
)
    requires
        0 <= k < lines.len(),
        !is_blank(lines[k]),
        !has_sep(trim_end_spec(lines[k]), sep),
        k + 1 < lines.len() ==> is_blank(lines[k + 1]),
        rows.len() > 0 && rows.last().len() > 0 && rows.last().last().content.len() > 0,
    ensures
        ({
            let (out, end) = continued(rows, lines, starts, k, first, sep);
            let row = rows.last();
            let cell = row.last();
            &&& end == k + 1
            &&& out.len() == rows.len()
            &&& forall|r: int| 0 <= r < rows.len() - 1 ==> out[r] == #[trigger] rows[r]
            &&& out.last().len() == row.len()
            &&& forall|c: int| 0 <= c < row.len() - 1 ==> out.last()[c] == #[trigger] row[c]
            &&& out.last().last().content == cell.content + (if first {
                seq!['\n', '\n']
            } else {
                seq!['\n']
            }) + trim_end_spec(lines[k])
            &&& out.last().last().start == cell.start
            &&& out.last().last().colspan == cell.colspan
            &&& out.last().last().style == cell.style
        }),
{
    reveal_with_fuel(continued, 2);
}

// ---------------------------------------------------------------------------
// Comma-separated form.
// ---------------------------------------------------------------------------

proof fn lemma_field_cells(
    bytes: Seq<u8>,
    fields: Seq<Seq<char>>,
    k: int,
    at: int,
    base_offset: int,
    sep_byte: u8,
)
    requires
        0 <= k <= fields.len(),
    ensures
        ({
            let cells = field_cells(bytes, fields, k, at, base_offset, sep_byte);
            &&& cells.len() == fields.len() - k
            &&& forall|j: int|
                #![trigger cells[j]]
                0 <= j < cells.len() ==> cells[j].content == trim_spec(fields[k + j]) && is_plain(
                    cells[j],
                )
        }),
    decreases fields.len() - k,
{
    if k < fields.len() {
        let (start, next) = field_position(bytes, at, blen(fields[k]) as int, sep_byte);
        lemma_field_cells(bytes, fields, k + 1, next, base_offset, sep_byte);
        let rest = field_cells(bytes, fields, k + 1, next, base_offset, sep_byte);
        let cells = field_cells(bytes, fields, k, at, base_offset, sep_byte);
        assert forall|j: int| #![trigger cells[j]] 0 <= j < cells.len() implies cells[j].content
            == trim_spec(fields[k + j]) && is_plain(cells[j]) by {
            if j > 0 {
                assert(cells[j] == rest[j - 1]);
            }
        }
    }
}

/// A record makes a plain cell of each of its fields, in their order, with the text of the
/// field and no white space round it.
pub proof fn law_fields_are_cells(
    bytes: Seq<u8>,
    fields: Seq<Seq<char>>,
    at: int,
    base_offset: int,
    sep_byte: u8,
)
    ensures
        field_cells(bytes, fields, 0, at, base_offset, sep_byte).len() == fields.len(),
        forall|j: int|
            #![trigger field_cells(bytes, fields, 0, at, base_offset, sep_byte)[j]]
            0 <= j < fields.len() ==> field_cells(
                bytes,
                fields,
                0,
                at,
                base_offset,
                sep_byte,
            )[j].content == trim_spec(fields[j]) && is_plain(
                field_cells(bytes, fields, 0, at, base_offset, sep_byte)[j],
            ),
{
    lemma_field_cells(bytes, fields, 0, at, base_offset, sep_byte);
}

proof fn lemma_records_behind(
    bytes: Seq<u8>,
    a: Seq<Option<(Option<u64>, Seq<Seq<char>>)>>,
    b: Seq<Option<(Option<u64>, Seq<Seq<char>>)>>,
    k: int,
    base_offset: int,
    sep_byte: u8,
)
    requires
        0 <= k <= a.len() + b.len(),
    ensures
        record_rows(bytes, a + b, k, base_offset, sep_byte) == if k < a.len() {
            record_rows(bytes, a, k, base_offset, sep_byte) + record_rows(
                bytes,
                b,
                0,
                base_offset,
                sep_byte,
            )
        } else {
            record_rows(bytes, b, k - a.len(), base_offset, sep_byte)
        },
    decreases a.len() + b.len() - k,
{
    let all = a + b;
    if k < all.len() {
        lemma_records_behind(bytes, a, b, k + 1, base_offset, sep_byte);
        if k < a.len() {
            assert(all[k] == a[k]);
            let behind = record_rows(bytes, b, 0, base_offset, sep_byte);
            let rest = record_rows(bytes, a, k + 1, base_offset, sep_byte);
            assert(record_rows(bytes, all, k + 1, base_offset, sep_byte) =~= rest + behind);
            match a[k] {
                Some(record) if record.1.len() > 0 => {
                    let row = seq![
                        field_cells(
                            bytes,
                            record.1,
                            0,
                            past_breaks(bytes, record_start(record.0)),
                            base_offset,
                            sep_byte,
                        ),
                    ];
                    assert(row + (rest + behind) =~= row + rest + behind);
                },
                _ => {},
            }
            assert(record_rows(bytes, all, k, base_offset, sep_byte) =~= record_rows(
                bytes,
                a,
                k,
                base_offset,
                sep_byte,
            ) + record_rows(bytes, b, 0, base_offset, sep_byte));
        } else {
            assert(all[k] == b[k - a.len()]);
        }
    }
}

/// Records make rows one by one, in their order.
pub proof fn law_records_one_by_one(
    bytes: Seq<u8>,
    a: Seq<Option<(Option<u64>, Seq<Seq<char>>)>>,
    b: Seq<Option<(Option<u64>, Seq<Seq<char>>)>>,
    base_offset: int,
    sep_byte: u8,
)
    ensures
        record_rows(bytes, a + b, 0, base_offset, sep_byte) == record_rows(
            bytes,
            a,
            0,
            base_offset,
            sep_byte,
        ) + record_rows(bytes, b, 0, base_offset, sep_byte),
{
    lemma_records_behind(bytes, a, b, 0, base_offset, sep_byte);
    if a.len() == 0 {
        assert(a + b =~= b);
        assert(record_rows(bytes, a, 0, base_offset, sep_byte) + record_rows(
            bytes,
            b,
            0,
            base_offset,
            sep_byte,
        ) =~= record_rows(bytes, b, 0, base_offset, sep_byte));
    }
}

/// A record with fields makes one row, of its fields; one that was rejected makes none.
pub proof fn law_rows_of_a_record(
    bytes: Seq<u8>,
    start: Option<u64>,
    fields: Seq<Seq<char>>,
    base_offset: int,
    sep_byte: u8,
)
    requires
        fields.len() > 0,
    ensures
        ({
            let rows = record_rows(bytes, seq![Some((start, fields))], 0, base_offset, sep_byte);
            &&& rows.len() == 1
            &&& rows[0].len() == fields.len()
            &&& forall|j: int|
                #![trigger rows[0][j]]
                0 <= j < fields.len() ==> rows[0][j].content == trim_spec(fields[j]) && is_plain(
                    rows[0][j],
                )
        }),
        record_rows(bytes, seq![None], 0, base_offset, sep_byte).len() == 0,
{
    reveal_with_fuel(record_rows, 2);
    let at = past_breaks(bytes, record_start(start));
    lemma_field_cells(bytes, fields, 0, at, base_offset, sep_byte);
    let rows = record_rows(bytes, seq![Some((start, fields))], 0, base_offset, sep_byte);
    assert(rows =~= seq![field_cells(bytes, fields, 0, at, base_offset, sep_byte)]);
}

proof fn lemma_field_stop(bytes: Seq<u8>, from: int, stop: int, sep_byte: u8)
    requires
        0 <= from <= stop <= bytes.len(),
        forall|k: int|
            from <= k < stop ==> #[trigger] bytes[k] != sep_byte && bytes[k] != 0x0A && bytes[k]
                != 0x0D,
        stop < bytes.len() ==> bytes[stop] == sep_byte || bytes[stop] == 0x0A || bytes[stop]
            == 0x0D,
    ensures
        field_stop(bytes, from, sep_byte) == stop,
    decreases stop - from,
{
    if from < stop {
        lemma_field_stop(bytes, from + 1, stop, sep_byte);
    }
}

/// A field without quotes begins where it stands and the next one behind the separator.
pub proof fn law_places_of_bare_fields(bytes: Seq<u8>, start: int, len: int, sep_byte: u8)
    requires
        0 <= start,
        0 <= len,
        start + len < bytes.len(),
        bytes[start] != 0x22,
        bytes[start + len] == sep_byte,
        sep_byte != 0x22,
        forall|k: int|
            start <= k < start + len ==> #[trigger] bytes[k] != sep_byte && bytes[k] != 0x0A
                && bytes[k] != 0x0D,
    ensures
        field_position(bytes, start, len, sep_byte) == (start, start + len + 1),
{
    lemma_field_stop(bytes, start, start + len, sep_byte);
    lemma_field_stop(bytes, start + len, start + len, sep_byte);
}

proof fn lemma_closing_quote(bytes: Seq<u8>, from: int, at: int)
    requires
        0 <= from <= at < bytes.len(),
        forall|k: int| from <= k < at ==> #[trigger] bytes[k] != 0x22,
        bytes[at] == 0x22,
        at + 1 < bytes.len() ==> bytes[at + 1] != 0x22,
    ensures
        closing_quote(bytes, from) == at,
    decreases at - from,
{
    if from < at {
        lemma_closing_quote(bytes, from + 1, at);
    }
}

/// The text of a field in quotes begins behind the first quote, and the next field behind
/// the separator that follows the last.
pub proof fn law_places_of_quoted_fields(
    bytes: Seq<u8>,
    start: int,
    close: int,
    len: int,
    sep_byte: u8,
)
    requires
        0 <= start < close,
        close + 1 < bytes.len(),
        bytes[start] == 0x22,
        bytes[close] == 0x22,
        bytes[close + 1] == sep_byte,
        sep_byte != 0x22,
        forall|k: int| start < k < close ==> #[trigger] bytes[k] != 0x22,
    ensures
        field_position(bytes, start, len, sep_byte) == (start + 1, close + 2),
{
    lemma_closing_quote(bytes, start + 1, close);
    lemma_field_stop(bytes, close + 1, close + 1, sep_byte);
}

/// Two quotes within a field in quotes stand for one and do not close it.
pub proof fn law_doubled_quotes(bytes: Seq<u8>, from: int)
    requires
        0 <= from,
        from + 1 < bytes.len(),
        bytes[from] == 0x22,
        bytes[from + 1] == 0x22,
    ensures
        closing_quote(bytes, from) == closing_quote(bytes, from + 2),
{
}

/// A separator of one ASCII character parts the fields; any other is taken for a comma.
pub proof fn law_separators_of_fields(c: char, sep: Seq<char>)
    ensures
        c <= '\u{7F}' ==> csv_separator(seq![c]) as u32 == c as u32,
        c > '\u{7F}' ==> csv_separator(seq![c]) as u32 == ',' as u32,
        sep.len() != 1 ==> csv_separator(sep) as u32 == ',' as u32,
{
}

proof fn lemma_record_end(bytes: Seq<u8>, pos: int, feed: int)
    requires
        0 <= pos <= feed < bytes.len(),
        bytes[feed] == 0x0A,
        forall|k: int| pos <= k < feed ==> #[trigger] bytes[k] != 0x0A && bytes[k] != 0x22,
    ensures
        record_end(bytes, pos, false) == feed + 1,
    decreases feed - pos,
{
    if pos < feed {
        lemma_record_end(bytes, pos + 1, feed);
    }
}

/// A record without quotes ends with its line, and the line behind it is blank where
/// another line feed comes next, or a carriage return and a line feed, and not where
/// anything else does.
pub proof fn law_blank_lines_behind_a_record(bytes: Seq<u8>, pos: int, feed: int)
    requires
        0 <= pos <= feed < bytes.len(),
        bytes[feed] == 0x0A,
        forall|k: int| pos <= k < feed ==> #[trigger] bytes[k] != 0x0A && bytes[k] != 0x22,
    ensures
        record_end(bytes, pos, false) == feed + 1,
        feed + 1 < bytes.len() && bytes[feed + 1] == 0x0A ==> blank_line_at(bytes, feed + 1),
        feed + 2 < bytes.len() && bytes[feed + 1] == 0x0D && bytes[feed + 2] == 0x0A
            ==> blank_line_at(bytes, feed + 1),
        feed + 1 < bytes.len() && bytes[feed + 1] != 0x0A && bytes[feed + 1] != 0x0D
            ==> !blank_line_at(bytes, feed + 1),
        feed + 1 == bytes.len() ==> !blank_line_at(bytes, feed + 1),
{
    lemma_record_end(bytes, pos, feed);
    reveal_with_fuel(past_returns, 2);
}

// ---------------------------------------------------------------------------
// Bounds.
// ---------------------------------------------------------------------------

/// The first cell that asks for too much is the one that is told of, with its place, what
/// it asks for and the bound: the columns that it spans, else the rows, else its copies.
pub proof fn law_cell_at_fault(cells: Seq<CellV>, j: int)
    requires
        0 <= j < cells.len(),
        forall|i: int|
            #![trigger cells[i]]
            0 <= i < j ==> cells[i].colspan <= MAX_TABLE_COLUMNS && cells[i].rowspan
                <= MAX_TABLE_ROWS && cells[i].duplication_count <= MAX_TABLE_COLUMNS,
        cells[j].colspan > MAX_TABLE_COLUMNS || cells[j].rowspan > MAX_TABLE_ROWS
            || cells[j].duplication_count > MAX_TABLE_COLUMNS,
    ensures
        cells_violation(cells) matches Some(v) && v.start == cells[j].start && v.end == cells[j].end
            && if cells[j].colspan > MAX_TABLE_COLUMNS {
            v.resource == "column span"@ && v.requested == cells[j].colspan && v.limit
                == MAX_TABLE_COLUMNS
        } else if cells[j].rowspan > MAX_TABLE_ROWS {
            v.resource == "row span"@ && v.requested == cells[j].rowspan && v.limit
                == MAX_TABLE_ROWS
        } else {
            v.resource == "cell duplication"@ && v.requested == cells[j].duplication_count
                && v.limit == MAX_TABLE_COLUMNS
        },
    decreases j,
{
    if j > 0 {
        let rest = cells.drop_first();
        assert(cells[0].colspan <= MAX_TABLE_COLUMNS);
        assert forall|i: int| #![trigger rest[i]] 0 <= i < j - 1 implies rest[i].colspan
            <= MAX_TABLE_COLUMNS && rest[i].rowspan <= MAX_TABLE_ROWS && rest[i].duplication_count
            <= MAX_TABLE_COLUMNS by {
            assert(rest[i] == cells[i + 1]);
        }
        assert(rest[j - 1] == cells[j]);
        law_cell_at_fault(rest, j - 1);
    }
}

/// A table with too many rows is refused at the first row too many; one with too many cells
/// in a row, before which no row is at fault, at that row.
pub proof fn law_rows_at_fault(rows: Seq<Seq<CellV>>, r: int)
    requires
        0 <= r < rows.len(),
        rows[r].len() > 0,
    ensures
        rows.len() > MAX_TABLE_ROWS && r == MAX_TABLE_ROWS ==> table_violation(rows) == Some(
            LimitV {
                resource: "row count"@,
                requested: rows.len() as int,
                limit: MAX_TABLE_ROWS as int,
                start: rows[r][0].start,
                end: rows[r].last().end,
            },
        ),
        rows.len() <= MAX_TABLE_ROWS && rows[r].len() > MAX_TABLE_COLUMNS && (forall|i: int|
            0 <= i < r ==> row_violation(#[trigger] rows[i]) is None) ==> table_violation(rows)
            == Some(
            LimitV {
                resource: "column count"@,
                requested: rows[r].len() as int,
                limit: MAX_TABLE_COLUMNS as int,
                start: rows[r][0].start,
                end: rows[r].last().end,
            },
        ),
        MAX_TABLE_COLUMNS == 100,
        MAX_TABLE_ROWS == 1000,
{
    if forall|i: int| 0 <= i < r ==> row_violation(#[trigger] rows[i]) is None {
        if row_violation(rows[r]) is Some {
            lemma_each_row(rows, r);
        }
    }
}

proof fn lemma_each_row(rows: Seq<Seq<CellV>>, r: int)
    requires
        0 <= r < rows.len(),
        forall|i: int| 0 <= i < r ==> row_violation(#[trigger] rows[i]) is None,
        row_violation(rows[r]) is Some,
    ensures
        each_row_violation(rows) == row_violation(rows[r]),
    decreases r,
{
    if r > 0 {
        assert(row_violation(rows[0]) is None);
        let rest = rows.drop_first();
        assert forall|i: int| 0 <= i < r - 1 implies row_violation(#[trigger] rest[i]) is None by {
            assert(rest[i] == rows[i + 1]);
        }
        assert(rest[r - 1] == rows[r]);
        lemma_each_row(rest, r - 1);
    }
}

/// A specifier flush against the first separator of a line begins a row; text before the
/// separator that is none, or white space between, does not.
pub proof fn law_specifiers_begin_rows(front: Seq<char>, c: char, rest: Seq<char>)
    requires
        c != '\\',
        front.len() > 0,
        !is_ws(front[0]),
        forall|k: int| 0 <= k < front.len() ==> #[trigger] front[k] != c && front[k] != '\\',
    ensures
        new_row_start(front + seq![c] + rest, seq![c], true) == (is_full_spec(front) && !is_ws(
            front.last(),
        )),
        !new_row_start(seq![c] + rest, seq![c], true),
        !new_row_start(front + seq![c] + rest, seq![c], false),
{
    let line = front + seq![c] + rest;
    let n = front.len() as int;
    lemma_next_sep(line, c, 0);
    assert(line[n] == c);
    assert(line[n - 1] == front[n - 1]);
    assert(is_sep_at(line, c, n));
    let found = next_sep(line, c, 0);
    if found < n {
        assert(line[found] == front[found]);
    }
    assert(line.take(n) =~= front);
    assert(trim_start_spec(front) =~= front);
    let led = seq![c] + rest;
    lemma_next_sep(led, c, 0);
    assert(led[0] == c);
    assert(is_sep_at(led, c, 0));
    assert(led.take(0) =~= Seq::empty());
    assert(trim_start_spec(Seq::<char>::empty()) =~= Seq::empty());
}

/// The cells of one more row come behind those of the others, whether they go into a row of
/// their own or into the last, and they go there only where it has room.
pub proof fn law_added_rows_keep_the_order(
    rows: Seq<Seq<CellV>>,
    cells: Seq<CellV>,
    merge: bool,
    ncols: Option<usize>,
)
    ensures
        all_cells(add_row(rows, cells, merge, ncols)) == all_cells(rows) + cells,
        merge && rows.len() > 0 && (ncols matches Some(n) && row_width(rows.last()) < n)
            ==> add_row(rows, cells, merge, ncols).len() == rows.len(),
        !merge || rows.len() == 0 || ncols is None || row_width(rows.last()) >= ncols->Some_0
            ==> add_row(rows, cells, merge, ncols).len() == rows.len() + 1,
{
    let out = add_row(rows, cells, merge, ncols);
    if merge && ncols is Some && rows.len() > 0 && row_width(rows.last()) < ncols->Some_0 {
        assert(out.drop_last() =~= rows.drop_last());
        assert(all_cells(out) =~= all_cells(rows) + cells);
    } else {
        assert(out.drop_last() =~= rows);
    }
}

/// The text of a field stands behind the white space before it, and the cell ends with the
/// last byte of its text.
pub proof fn law_place_of_a_field(field: Seq<char>, start: int)
    requires
        0 <= start,
        start + blen(field) <= usize::MAX,
    ensures
        csv_cell(field, start).start == start,
        trim_spec(field).len() > 0 ==> csv_cell(field, start).content_start == start + blen(
            field.take(leading_ws(field)),
        ) && csv_cell(field, start).end == csv_cell(field, start).content_start + blen(
            trim_spec(field),
        ) - 1,
        trim_spec(field).len() == 0 ==> csv_cell(field, start).content_start == start && csv_cell(
            field,
            start,
        ).end == start,
{
    lemma_trim_blen(field);
    lemma_blen_ge_len(trim_spec(field));
}

proof fn lemma_specifiers_within(rows: Seq<Seq<CellV>>)
    requires
        forall|r: int| 0 <= r < rows.len() ==> take_one_place(#[trigger] rows[r]),
    ensures
        specifiers_violation(rows) is None,
    decreases rows.len(),
{
    if rows.len() > 0 {
        let rest = rows.drop_first();
        assert(take_one_place(rows[0]));
        assert forall|j: int| #![trigger rows[0][j]] 0 <= j
            < rows[0].len() implies cell_within_limits(rows[0][j]) by {
            assert(takes_one_place(rows[0][j]));
        }
        lemma_cells_within(rows[0]);
        assert forall|r: int| 0 <= r < rest.len() implies take_one_place(#[trigger] rest[r]) by {
            assert(rest[r] == rows[r + 1]);
        }
        lemma_specifiers_within(rest);
    }
}

/// A table of lines that each hold the cells of a row, as many in every line as the table has
/// columns, is read to these rows: a row for each line, in their order, with the cells of the
/// line. The number of columns need not be given.
pub proof fn law_plain_tables(text: Seq<char>, offset: int, lay: Layout, n: usize)
    requires
        lay.is_psv,
        0 < n <= MAX_TABLE_COLUMNS,
        lay.ncols is None || lay.ncols == Some(n),
        0 < lines_spec(text).len() <= MAX_TABLE_ROWS,
        forall|k: int|
            #![trigger lines_spec(text)[k]]
            0 <= k < lines_spec(text).len() ==> {
                let line = lines_spec(text)[k];
                let start = line_offsets(text, offset)[k];
                let cells = row_cells(seq![line], seq![start], lay.sep, true);
                &&& trim_end_spec(line) == line
                &&& is_whole_row(line, lay.sep)
                &&& cells.len() == n
                &&& take_one_place(cells)
            },
    ensures
        ({
            let lines = lines_spec(text);
            table_rows(text, offset, false, lay) matches Ok(rows) && rows.len() == lines.len() && (
            forall|k: int|
                0 <= k < lines.len() ==> #[trigger] rows[k] == row_cells(
                    seq![lines[k]],
                    seq![line_offsets(text, offset)[k]],
                    lay.sep,
                    true,
                ))
        }),
{
    let lines = lines_spec(text);
    let starts = line_offsets(text, offset);
    lemma_offsets(text, offset);
    assert forall|k: int| 0 <= k < lines.len() implies is_whole_row(
        #[trigger] lines[k],
        lay.sep,
    ) by {}
    law_each_line_is_a_row(lines, starts, lay);
    let rows = grouped_body(text, offset, lay);
    assert forall|r: int| 0 <= r < rows.len() implies (#[trigger] rows[r]).len() == n
        && take_one_place(rows[r]) by {
        assert(trim_end_spec(lines[r]) == lines[r]);
    }
    assert(is_whole_row(lines[0], lay.sep));
    if lines.len() > 1 {
        assert(is_whole_row(lines[1], lay.sep));
    }
    assert(first_text(lines, 0) == 0);
    reveal_with_fuel(first_row_end, 3);
    assert(first_row_end(lines, 0, 0, lay.sep, true) == 1);
    assert(lines.subrange(0, 1) =~= seq![lines[0]]);
    assert(starts.subrange(0, 1) =~= seq![starts[0]]);
    let first = first_row_cells(lines, starts, lay.sep, true);
    assert(first == rows[0]) by {
        assert(trim_end_spec(lines[0]) == lines[0]);
    }
    assert(take_one_place(first));
    assert forall|j: int| #![trigger first[j]] 0 <= j < first.len() implies cell_within_limits(
        first[j],
    ) by {
        assert(takes_one_place(first[j]));
    }
    lemma_cells_within(first);
    lemma_one_place_each(first);
    lemma_specifiers_within(rows);
    law_full_rows_stay(rows, n as int);
    assert forall|i: int| #![trigger rows[i]] 0 <= i < rows.len() implies rows[i].len()
        <= MAX_TABLE_COLUMNS && forall|j: int|
        #![trigger rows[i][j]]
        0 <= j < rows[i].len() ==> cell_within_limits(rows[i][j]) by {
        assert(take_one_place(rows[i]));
        assert forall|j: int| #![trigger rows[i][j]] 0 <= j
            < rows[i].len() implies cell_within_limits(rows[i][j]) by {
            assert(takes_one_place(rows[i][j]));
        }
    }
    law_limits(rows);
}

/// A table that is to have too many columns is refused where it begins.
pub proof fn law_too_many_columns(text: Seq<char>, offset: int, is_csv: bool, lay: Layout)
    requires
        lay.ncols matches Some(n) && n > MAX_TABLE_COLUMNS,
    ensures
        table_rows(text, offset, is_csv, lay) == Err::<Seq<Seq<CellV>>, LimitV>(
            LimitV {
                resource: "column count"@,
                requested: lay.ncols->Some_0 as int,
                limit: MAX_TABLE_COLUMNS as int,
                start: offset,
                end: offset,
            },
        ),
{
}

/// In a line that goes on with a row, a letter behind a text stays text: without a span or an
/// alignment it is no specifier. Nor is one with an alignment before its operator.
pub proof fn law_bare_letters_stay_text(text: Seq<char>, token: Seq<char>, continues: bool)
    requires
        token.len() > 0,
        forall|k: int| 0 <= k < token.len() ==> !is_ws(#[trigger] token[k]),
    ensures
        continues && !token.contains('+') && !token.contains('*') && !token.contains('<')
            && !token.contains('^') && !token.contains('>') ==> trailing_spec(
            text + seq![' '] + token,
            continues,
        ) is None,
        !is_full_spec(token) ==> trailing_spec(text + seq![' '] + token, continues) is None,
        (token[0] == '<' || token[0] == '^' || token[0] == '>') && (token.last() == '+'
            || token.last() == '*') && token.len() > 3 ==> trailing_spec(
            text + seq![' '] + token,
            continues,
        ) is None,
{
    let s = text + seq![' '] + token;
    let at = text.len() as int;
    assert(s[at] == ' ');
    assert forall|k: int| at < k < s.len() implies !is_ws(#[trigger] s[k]) by {
        assert(s[k] == token[k - at - 1]);
    }
    lemma_last_ws_at(s, at);
    assert(s.skip(at + 1) =~= token);
    let behind = token.skip(align_spec(token, 0).2);
    if token.len() > 3 {
        assert(behind.last() == token.last());
        assert(behind.contains(behind.last()));
    }
}

/// Without white space before it there is no specifier at the end of a part, and none with
/// white space behind it.
pub proof fn law_specifiers_stand_apart(content: Seq<char>, continues: bool)
    ensures
        (forall|k: int| 0 <= k < content.len() ==> !is_ws(#[trigger] content[k]))
            ==> trailing_spec(content, continues) is None,
        content.len() > 0 && is_ws(content.last()) ==> trailing_spec(content, continues) is None,
{
    if forall|k: int| 0 <= k < content.len() ==> !is_ws(#[trigger] content[k]) {
        lemma_no_ws(content);
    }
}

proof fn lemma_no_ws(s: Seq<char>)
    requires
        forall|k: int| 0 <= k < s.len() ==> !is_ws(#[trigger] s[k]),
    ensures
        last_ws(s) == -1,
    decreases s.len(),
{
    if s.len() > 0 {
        assert(!is_ws(s[s.len() - 1]));
        let front = s.drop_last();
        assert forall|k: int| 0 <= k < front.len() implies !is_ws(#[trigger] front[k]) by {
            assert(front[k] == s[k]);
        }
        lemma_no_ws(front);
    }
}

/// What stands before the first separator is a specifier where it is one and touches the
/// separator; white space may stand before it.
pub proof fn law_leading_specifiers(front: Seq<char>, spec: Seq<char>, back: Seq<char>)
    requires
        forall|k: int| 0 <= k < front.len() ==> is_ws(#[trigger] front[k]),
        forall|k: int| 0 <= k < back.len() ==> is_ws(#[trigger] back[k]),
        spec.len() > 0 && !is_ws(spec[0]) && !is_ws(spec.last()),
    ensures
        leads_with_spec(front + spec + back) == (is_full_spec(spec) && back.len() == 0),
{
    law_trimming(front, spec, back);
    let rest = spec + back;
    if back.len() > 0 {
        assert(rest.last() == back.last());
        assert(is_ws(back[back.len() - 1]));
    } else {
        assert(rest =~= spec);
    }
}

/// Text before the first separator of a line that goes on with a row is another line of the
/// last cell; the cells of the line come behind it.
pub proof fn law_text_before_the_first_separator(
    cells: Seq<CellV>,
    line: Seq<char>,
    offset: int,
    sep: Seq<char>,
)
    requires
        has_sep(line, sep),
        cells.len() > 0,
        cells.last().content.len() > 0,
        row_parts(line, sep, true).len() > 0,
        trim_spec(row_parts(line, sep, true)[0].content).len() > 0,
        !leads_with_spec(row_parts(line, sep, true)[0].content),
    ensures
        ({
            let parts = row_parts(line, sep, true);
            let after = after_line(cells, line, offset, sep, true);
            let n = cells.len() as int;
            &&& after.len() == n + parts.len() - 1
            &&& forall|k: int| 0 <= k < n - 1 ==> after[k] == #[trigger] cells[k]
            &&& after[n - 1].content == cells.last().content + seq!['\n'] + trim_spec(
                parts[0].content,
            )
            &&& after[n - 1].colspan == cells.last().colspan
            &&& after[n - 1].rowspan == cells.last().rowspan
            &&& after[n - 1].style == cells.last().style
            &&& after[n - 1].start == cells.last().start
            &&& after[n - 1].content_start == cells.last().content_start
        }),
{
    let parts = row_parts(line, sep, true);
    let begun = after_first_part(cells, parts[0], offset, sep);
    let after = after_line(cells, line, offset, sep, true);
    assert(after == cells_from(cells, parts, 0, None, offset, sep, true));
    assert(after == cells_from(begun, parts, 1, None, offset, sep, true));
    lemma_cells(begun, parts, 1, None, offset, sep, true);
    assert(begun.len() == cells.len());
    assert forall|k: int| 0 <= k < cells.len() - 1 implies after[k] == #[trigger] cells[k] by {
        assert(after[k] == begun[k]);
    }
    assert(after[cells.len() - 1] == begun[cells.len() - 1]);
}

proof fn lemma_parted_rows(lines: Seq<Seq<char>>, starts: Seq<int>, p: Progress, lay: Layout)
    requires
        !lay.is_psv,
        starts.len() == lines.len(),
        0 <= p.i <= lines.len(),
        p.rows == parted_rows(lines, starts, p.i, lay.sep),
        forall|k: int|
            0 <= k < lines.len() ==> !is_blank(#[trigger] lines[k]) && contains_spec(
                trim_end_spec(lines[k]),
                lay.sep,
            ),
    ensures
        grouped(lines, starts, p, lay) == parted_rows(lines, starts, lines.len() as int, lay.sep),
    decreases lines.len() - p.i,
{
    if p.i < lines.len() {
        assert(!is_blank(lines[p.i]) && !is_blank(lines[0]));
        if p.i + 1 < lines.len() {
            assert(!is_blank(lines[p.i + 1]));
        }
        assert(first_text(lines, p.i + 1) == p.i + 1);
        assert(is_row_line(lines, p.i, lay.sep, lay.is_psv));
        assert(row_lines(lines, p.i, lay) == (seq![trim_end_spec(lines[p.i])], p.i + 1));
        assert(starts.subrange(p.i, p.i + 1) =~= seq![starts[p.i]]);
        let next = step(lines, starts, p, lay);
        assert(next.i == p.i + 1);
        assert(next.rows =~= parted_rows(lines, starts, p.i + 1, lay.sep));
        lemma_parted_rows(lines, starts, next, lay);
    }
}

/// The rows of lines whose cells are only parted by separators.
pub open spec fn parted_rows(
    lines: Seq<Seq<char>>,
    starts: Seq<int>,
    n: int,
    sep: Seq<char>,
) -> Seq<Seq<CellV>> {
    Seq::new(
        n as nat,
        |k: int| row_cells(seq![trim_end_spec(lines[k])], seq![starts[k]], sep, false),
    )
}

/// Where cells are only parted by separators, each line that holds one is a row.
pub proof fn law_each_parted_line_is_a_row(lines: Seq<Seq<char>>, starts: Seq<int>, lay: Layout)
    requires
        !lay.is_psv,
        starts.len() == lines.len(),
        forall|k: int|
            0 <= k < lines.len() ==> !is_blank(#[trigger] lines[k]) && contains_spec(
                trim_end_spec(lines[k]),
                lay.sep,
            ),
    ensures
        grouped(lines, starts, at_start(), lay).len() == lines.len(),
        forall|k: int|
            0 <= k < lines.len() ==> #[trigger] grouped(lines, starts, at_start(), lay)[k]
                == row_cells(seq![trim_end_spec(lines[k])], seq![starts[k]], lay.sep, false),
{
    assert(at_start().rows =~= parted_rows(lines, starts, 0, lay.sep));
    lemma_parted_rows(lines, starts, at_start(), lay);
}

/// Whether a line begins with the separator and holds one cell that takes one column.
pub open spec fn is_lone_cell(line: Seq<char>, sep: Seq<char>) -> bool {
    let text = trim_end_spec(line);
    &&& text.len() > 0
    &&& starts_with_spec(text, sep)
    &&& split_spec(text, sep).len() == 2
    &&& !new_row_start(text, sep, true)
    &&& line_columns(text, sep, true) == 1
}

proof fn lemma_collect_cells(lines: Seq<Seq<char>>, i: int, lay: Layout)
    requires
        lay.is_psv,
        lay.ncols matches Some(n) && lines.len() <= n,
        0 <= i <= lines.len(),
        forall|k: int| 0 <= k < lines.len() ==> is_lone_cell(#[trigger] lines[k], lay.sep),
    ensures
        collect(lines, i, trimmed(lines).take(i), i, false, lay) == (
            trimmed(lines),
            lines.len() as int,
        ),
    decreases lines.len() - i,
{
    let all = trimmed(lines);
    if i < lines.len() {
        assert(is_lone_cell(lines[i], lay.sep));
        assert(all.take(i).push(trim_end_spec(lines[i])) =~= all.take(i + 1));
        lemma_collect_cells(lines, i + 1, lay);
    } else {
        assert(all.take(i) =~= all);
    }
}

/// Lines without the white space at their ends.
pub open spec fn trimmed(lines: Seq<Seq<char>>) -> Seq<Seq<char>> {
    Seq::new(lines.len(), |k: int| trim_end_spec(lines[k]))
}

/// Cells that stand one to a line make one row, as long as it has room for them.
pub proof fn law_cells_one_to_a_line(lines: Seq<Seq<char>>, starts: Seq<int>, lay: Layout)
    requires
        lay.is_psv,
        lay.ncols matches Some(n) && lines.len() <= n,
        lines.len() > 0,
        starts.len() == lines.len(),
        forall|k: int| 0 <= k < lines.len() ==> is_lone_cell(#[trigger] lines[k], lay.sep),
    ensures
        grouped(lines, starts, at_start(), lay) == seq![
            row_cells(trimmed(lines), starts, lay.sep, true),
        ],
{
    assert(is_lone_cell(lines[0], lay.sep));
    assert(trimmed(lines).take(0) =~= Seq::empty());
    lemma_collect_cells(lines, 0, lay);
    assert(!is_row_line(lines, 0, lay.sep, true));
    assert(row_lines(lines, 0, lay) == (trimmed(lines), lines.len() as int));
    assert(starts.subrange(0, lines.len() as int) =~= starts);
    let next = step(lines, starts, at_start(), lay);
    assert(first_text(lines, lines.len() as int) == lines.len());
    assert(next.i == lines.len());
    assert(next.rows =~= seq![row_cells(trimmed(lines), starts, lay.sep, true)]);
    reveal_with_fuel(grouped, 2);
}

/// The first field of a record stands where the reader began to read it, unless it is in
/// quotes.
pub proof fn law_place_of_a_record(
    bytes: Seq<u8>,
    start: u64,
    fields: Seq<Seq<char>>,
    base_offset: int,
    sep_byte: u8,
)
    requires
        start < bytes.len() <= usize::MAX,
        bytes[start as int] != 0x0A && bytes[start as int] != 0x0D && bytes[start as int] != 0x22,
        fields.len() > 0,
        0 <= base_offset && base_offset + start <= usize::MAX,
    ensures
        record_rows(bytes, seq![Some((Some(start), fields))], 0, base_offset, sep_byte)[0][0].start
            == base_offset + start,
{
    reveal_with_fuel(record_rows, 2);
    let at = past_breaks(bytes, record_start(Some(start)));
    assert(at == start);
    let rows = record_rows(bytes, seq![Some((Some(start), fields))], 0, base_offset, sep_byte);
    assert(rows =~= seq![field_cells(bytes, fields, 0, at, base_offset, sep_byte)]);
}

/// The first record of a text in comma-separated form is a header where a blank line follows
/// it, and not where another record does. A text without a first record has none.
pub proof fn law_header_of_records(
    bytes: Seq<u8>,
    records: Seq<Option<(Option<u64>, Seq<Seq<char>>)>>,
    start: u64,
    fields: Seq<Seq<char>>,
    feed: int,
)
    requires
        start <= feed,
        feed + 1 < bytes.len() <= usize::MAX,
        bytes[feed] == 0x0A,
        forall|k: int| start <= k < feed ==> #[trigger] bytes[k] != 0x0A && bytes[k] != 0x22,
    ensures
        records.len() > 0 && records[0] == Some((Some(start), fields)) && bytes[feed + 1] == 0x0A
            ==> csv_implies_header(bytes, records),
        records.len() > 0 && records[0] == Some((Some(start), fields)) && bytes[feed + 1] != 0x0A
            && bytes[feed + 1] != 0x0D ==> !csv_implies_header(bytes, records),
        records.len() == 0 ==> !csv_implies_header(bytes, records),
        records.len() > 0 && records[0] is None ==> !csv_implies_header(bytes, records),
{
    law_blank_lines_behind_a_record(bytes, start as int, feed);
}

/// A row goes on behind a blank line with a line that begins neither with the separator nor
/// with a specifier; only where each cell begins with a separator does it go on at all.
pub proof fn law_rows_go_on(
    lines: Seq<Seq<char>>,
    from: int,
    g: int,
    sep: Seq<char>,
    is_psv: bool,
)
    requires
        0 <= from <= g < lines.len(),
        forall|k: int| from <= k < g ==> is_blank(#[trigger] lines[k]),
        !is_blank(lines[g]),
    ensures
        starts_with_spec(trim_start_spec(trim_end_spec(lines[g])), sep) ==> !continues_row(
            lines,
            from,
            sep,
            is_psv,
        ),
        new_row_start(trim_end_spec(lines[g]), sep, is_psv) ==> !continues_row(
            lines,
            from,
            sep,
            is_psv,
        ),
        !is_psv ==> !continues_row(lines, from, sep, is_psv),
        is_psv && !starts_with_spec(trim_start_spec(trim_end_spec(lines[g])), sep)
            && !new_row_start(trim_end_spec(lines[g]), sep, is_psv) ==> continues_row(
            lines,
            from,
            sep,
            is_psv,
        ),
        !continues_row(lines, lines.len() as int, sep, is_psv),
{
    lemma_first_text(lines, from);
    let f = first_text(lines, from);
    if f < g {
        assert(is_blank(lines[f]));
    } else if g < f {
        assert(is_blank(lines[g]));
    }
}

/// The lines of a row are taken one by one: a blank line where the row goes on behind it,
/// and any other until one ends the row.
pub proof fn law_lines_of_a_row(
    lines: Seq<Seq<char>>,
    i: int,
    row: Seq<Seq<char>>,
    columns: int,
    lay: Layout,
)
    requires
        0 <= i < lines.len(),
    ensures
        is_blank(lines[i]) && !continues_row(lines, i + 1, lay.sep, lay.is_psv) ==> collect(
            lines,
            i,
            row,
            columns,
            false,
            lay,
        ) == (row, i),
        is_blank(lines[i]) && continues_row(lines, i + 1, lay.sep, lay.is_psv) ==> collect(
            lines,
            i,
            row,
            columns,
            false,
            lay,
        ) == collect(lines, i + 1, row.push(Seq::empty()), columns, false, lay),
        !is_blank(lines[i]) && row.len() > 0 && new_row_start(
            trim_end_spec(lines[i]),
            lay.sep,
            lay.is_psv,
        ) ==> collect(lines, i, row, columns, false, lay) == (row, i),
        !is_blank(lines[i]) && row.len() == 0 ==> collect(lines, i, row, columns, false, lay).1 > i,
        collect(lines, lines.len() as int, row, columns, false, lay) == (
            row,
            lines.len() as int,
        ),
{
    if is_blank(lines[i]) {
        assert(trim_end_spec(lines[i]) =~= Seq::empty());
    }
    if !is_blank(lines[i]) && row.len() == 0 {
        lemma_row_advances(
            lines,
            i + 1,
            row.push(trim_end_spec(lines[i])),
            saturated(columns + line_columns(trim_end_spec(lines[i]), lay.sep, lay.is_psv)),
            false,
            lay,
        );
    }
}

proof fn lemma_row_advances(
    lines: Seq<Seq<char>>,
    i: int,
    row: Seq<Seq<char>>,
    columns: int,
    paragraph: bool,
    lay: Layout,
)
    ensures
        collect(lines, i, row, columns, paragraph, lay).1 >= i,
    decreases lines.len() - i,
{
    if i < lines.len() {
        let line = trim_end_spec(lines[i]);
        lemma_row_advances(lines, i + 1, row.push(line), columns, paragraph, lay);
        lemma_row_advances(
            lines,
            i + 1,
            row.push(line),
            saturated(columns + line_columns(line, lay.sep, lay.is_psv)),
            paragraph || (row.len() > 0 && lay.is_psv && !starts_with_spec(line, lay.sep)),
            lay,
        );
    }
}

/// Behind a line that began without a separator, a line with two cells or more ends the row,
/// and one with a single cell does not as long as there is room.
pub proof fn law_rows_end_behind_a_paragraph(line: Seq<char>, lay: Layout, columns: int)
    requires
        lay.is_psv,
        starts_with_spec(line, lay.sep),
        !new_row_start(line, lay.sep, true),
        lay.ncols matches Some(n) ==> columns < n,
    ensures
        ends_row(line, lay, true, columns, true) == (count_seps(line, lay.sep) > 1),
{
}

/// A line of a table whose cells begin with a separator is a row of its own where it has two
/// cells or more, unless its last cell is only opened by a specifier, or the row goes on.
pub proof fn law_lines_that_are_rows(lines: Seq<Seq<char>>, i: int, sep: Seq<char>)
    requires
        0 <= i < lines.len(),
        has_sep(trim_end_spec(lines[i]), sep),
    ensures
        split_spec(trim_end_spec(lines[i]), sep).len() <= 2 ==> !is_row_line(lines, i, sep, true),
        continues_row(lines, i + 1, sep, true) ==> !is_row_line(lines, i, sep, true),
        ({
            let parts = split_spec(trim_end_spec(lines[i]), sep);
            parts.len() > 2 && trim_spec(parts[parts.len() - 1].content).len() > 0
                && !continues_row(lines, i + 1, sep, true) ==> is_row_line(lines, i, sep, true)
        }),
        is_row_line(lines, i, sep, false) == contains_spec(trim_end_spec(lines[i]), sep),
{
    let parts = split_spec(trim_end_spec(lines[i]), sep);
    if parts.len() > 0 {
        assert(parts.last() == parts[parts.len() - 1]);
    }
}

} // verus!

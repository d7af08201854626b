//! Reading the lines of one row into cells.

use crate::model::{ColumnStyle, HorizontalAlignment, VerticalAlignment};
use crate::table::separator::{
    as_written, escapes, has_no_escapes, has_sep, law_parts_stand_as_written, lemma_escapes_front,
    lemma_piece_stands, lemma_split_bounds, lemma_written_plainly, line_has_unescaped_separator,
    split_line, split_spec, stands_at, CellPart, PartV, SepKind, Separator,
};
use crate::table::specifier::{
    align_spec, first_part_spec, full_spec, is_full_spec, plain_spec, CellSpecifier,
};
use crate::text::{
    blen, byte_len, chars_of, contains_char, ends_in_whitespace, ends_in_ws, find_last_whitespace,
    is_whitespace, is_ws, last_token, last_ws, leading_ws, lemma_blen_split, lemma_leading_ws,
    lemma_lines_blen_step, lemma_trim_blen, lemma_trimmed_len, lines_blen, token_at_end, trim,
    trim_end, trim_end_spec, trim_spec, trim_start, trim_start_spec, trimmed_len,
};
use vstd::prelude::*;
use vstd::string::*;

verus! {

/// A cell with its text, its place in the document, span, alignment and style.
///
/// `start` is where the cell begins; `content_start` is where its text begins,
/// which is on a later line when the text does not follow the separator.
#[derive(Debug)]
pub struct ParsedCell {
    pub content: String,
    pub start: usize,
    pub content_start: usize,
    pub end: usize,
    pub colspan: usize,
    pub rowspan: usize,
    pub halign: Option<HorizontalAlignment>,
    pub valign: Option<VerticalAlignment>,
    pub style: Option<ColumnStyle>,
    pub is_duplication: bool,
    pub duplication_count: usize,
}

/// What a cell holds.
#[verifier::ext_equal]
pub struct CellV {
    pub content: Seq<char>,
    pub start: int,
    pub content_start: int,
    pub end: int,
    pub colspan: usize,
    pub rowspan: usize,
    pub halign: Option<HorizontalAlignment>,
    pub valign: Option<VerticalAlignment>,
    pub style: Option<ColumnStyle>,
    pub is_duplication: bool,
    pub duplication_count: usize,
}

impl DeepView for ParsedCell {
    type V = CellV;

    open spec fn deep_view(&self) -> CellV {
        CellV {
            content: self.content@,
            start: self.start as int,
            content_start: self.content_start as int,
            end: self.end as int,
            colspan: self.colspan,
            rowspan: self.rowspan,
            halign: self.halign,
            valign: self.valign,
            style: self.style,
            is_duplication: self.is_duplication,
            duplication_count: self.duplication_count,
        }
    }
}

impl Clone for ParsedCell {
    /// A cell that holds the same.
    fn clone(&self) -> (r: ParsedCell)
        ensures
            r.deep_view() == self.deep_view(),
    {
        ParsedCell {
            content: self.content.clone(),
            start: self.start,
            content_start: self.content_start,
            end: self.end,
            colspan: self.colspan,
            rowspan: self.rowspan,
            halign: self.halign,
            valign: self.valign,
            style: self.style,
            is_duplication: self.is_duplication,
            duplication_count: self.duplication_count,
        }
    }
}

// ---------------------------------------------------------------------------
// What the lines of a row mean.
// ---------------------------------------------------------------------------

/// The offset of the last byte of a text of `n` bytes at `start`; `start` itself
/// for an empty text.
pub open spec fn last_byte(start: int, n: nat) -> int {
    if n == 0 {
        start
    } else {
        start + n - 1
    }
}

/// A character that marks a span, a duplication or an alignment.
pub open spec fn has_marker(s: Seq<char>) -> bool {
    s.contains('+') || s.contains('*') || s.contains('<') || s.contains('^') || s.contains('>')
}

/// The specifier that stands at the end of a part, flush against the separator
/// and behind white space, and the part without it.
///
/// In a line that continues a row (`continues`), a bare style letter stays text.
/// An alignment before a span or duplication operator is no specifier here.
pub open spec fn trailing_spec(content: Seq<char>, continues: bool) -> Option<
    (Seq<char>, CellSpecifier),
> {
    let at = last_ws(content);
    let token = last_token(content);
    let after_align = token.skip(align_spec(token, 0).2);
    if ends_in_ws(content) || at < 0 {
        None
    } else if continues && !has_marker(token) {
        None
    } else if align_spec(token, 0).2 > 0 && (after_align.contains('+') || after_align.contains(
        '*',
    )) {
        None
    } else if !is_full_spec(token) {
        None
    } else {
        Some((trim_end_spec(content.take(at)), first_part_spec(token).0))
    }
}

/// The parts of a line with the specifiers at their ends handed to the parts
/// that follow.
pub open spec fn with_trailing_specs(parts: Seq<PartV>, continues: bool) -> Seq<PartV> {
    Seq::new(
        parts.len(),
        |i: int|
            PartV {
                content: match trailing_spec(parts[i].content, continues) {
                    Some(found) if i + 1 < parts.len() => found.0,
                    _ => parts[i].content,
                },
                start: parts[i].start,
                forced: if i > 0 && trailing_spec(parts[i - 1].content, continues) is Some {
                    Some(trailing_spec(parts[i - 1].content, continues)->Some_0.1)
                } else {
                    parts[i].forced
                },
            },
    )
}

/// A cell of the text and the specifier.
pub open spec fn cell_of(content: Seq<char>, start: int, spec: CellSpecifier) -> CellV {
    CellV {
        content,
        start,
        content_start: start,
        end: last_byte(start, blen(content)),
        colspan: spec.colspan,
        rowspan: spec.rowspan,
        halign: spec.halign,
        valign: spec.valign,
        style: spec.style,
        is_duplication: spec.is_duplication,
        duplication_count: spec.duplication_count,
    }
}

/// The document offset of the text of a part: behind the white space before it, with the
/// backslashes that escape separators there.
pub open spec fn text_start(part: PartV, offset: int, sep: Seq<char>) -> int {
    let lead = part.content.take(leading_ws(part.content));
    offset + part.start + blen(lead) + escapes(lead, sep)
}

/// The cell that a part makes. A specifier found at the end of the part before
/// wins over one that stood before the first separator.
pub open spec fn part_cell(
    part: PartV,
    pending: Option<CellSpecifier>,
    offset: int,
    sep: Seq<char>,
) -> CellV {
    let spec = match part.forced {
        Some(s) => s,
        None => match pending {
            Some(s) => s,
            None => plain_spec(),
        },
    };
    cell_of(trim_spec(part.content), text_start(part, offset, sep), spec)
}

/// A cell with more text behind its own. Text that is the cell's first fixes
/// where the text starts.
pub open spec fn extend_cell(
    cell: CellV,
    text: Seq<char>,
    at: int,
    join: Seq<char>,
    end: int,
) -> CellV {
    if cell.content.len() == 0 {
        CellV { content: text, content_start: at, end, ..cell }
    } else {
        CellV { content: cell.content + join + text, end, ..cell }
    }
}

/// The cells with more text behind that of the last one.
pub open spec fn extend_last(
    cells: Seq<CellV>,
    text: Seq<char>,
    at: int,
    join: Seq<char>,
    end: int,
) -> Seq<CellV> {
    if cells.len() == 0 {
        cells
    } else {
        cells.drop_last().push(extend_cell(cells.last(), text, at, join, end))
    }
}

/// The line feed between two lines of a cell.
pub open spec fn line_feed() -> Seq<char> {
    seq!['\n']
}

/// Whether the text before the first separator is a specifier for the next cell:
/// nothing but a specifier, flush against the separator.
pub open spec fn leads_with_spec(content: Seq<char>) -> bool {
    is_full_spec(trim_spec(content)) && !ends_in_ws(trim_start_spec(content))
}

/// The cells after the text before the first separator: where it is no specifier,
/// it continues the last cell.
pub open spec fn after_first_part(
    cells: Seq<CellV>,
    part: PartV,
    offset: int,
    sep: Seq<char>,
) -> Seq<CellV> {
    let text = trim_spec(part.content);
    let at = text_start(part, offset, sep);
    if text.len() == 0 || leads_with_spec(part.content) || cells.len() == 0 {
        cells
    } else {
        let end = last_byte(at, blen(text));
        extend_last(
            cells,
            text,
            at,
            line_feed(),
            if end > cells.last().end {
                end
            } else {
                cells.last().end
            },
        )
    }
}

/// The cells after the parts from `i` on; `pending` is the specifier for the
/// next cell.
pub open spec fn cells_from(
    cells: Seq<CellV>,
    parts: Seq<PartV>,
    i: int,
    pending: Option<CellSpecifier>,
    offset: int,
    sep: Seq<char>,
    is_psv: bool,
) -> Seq<CellV>
    decreases parts.len() - i,
{
    if i >= parts.len() {
        cells
    } else if i == 0 && is_psv {
        let pending = if leads_with_spec(parts[0].content) {
            Some(first_part_spec(trim_spec(parts[0].content)).0)
        } else {
            None
        };
        cells_from(
            after_first_part(cells, parts[0], offset, sep),
            parts,
            1,
            pending,
            offset,
            sep,
            is_psv,
        )
    } else {
        let pending_next = if parts[i].forced is Some {
            pending
        } else {
            None
        };
        cells_from(
            cells.push(part_cell(parts[i], pending, offset, sep)),
            parts,
            i + 1,
            pending_next,
            offset,
            sep,
            is_psv,
        )
    }
}

/// The parts of a line of a row, with specifiers handed on where the table
/// separates its cells with a leading separator (`is_psv`).
pub open spec fn row_parts(line: Seq<char>, sep: Seq<char>, is_psv: bool) -> Seq<PartV> {
    let parts = split_spec(line, sep);
    if is_psv {
        with_trailing_specs(parts, !is_full_spec(trim_spec(parts[0].content)))
    } else {
        parts
    }
}

/// The cells after one line more, which starts at `offset`. A line without
/// separator continues the last cell.
pub open spec fn after_line(
    cells: Seq<CellV>,
    line: Seq<char>,
    offset: int,
    sep: Seq<char>,
    is_psv: bool,
) -> Seq<CellV> {
    if has_sep(line, sep) {
        cells_from(cells, row_parts(line, sep, is_psv), 0, None, offset, sep, is_psv)
    } else {
        extend_last(cells, line, offset, line_feed(), last_byte(offset, blen(line)))
    }
}

/// The cells of the lines of a row, which start at the offsets `starts`.
pub open spec fn row_cells(
    lines: Seq<Seq<char>>,
    starts: Seq<int>,
    sep: Seq<char>,
    is_psv: bool,
) -> Seq<CellV>
    decreases lines.len(),
{
    if lines.len() == 0 {
        Seq::empty()
    } else {
        after_line(
            row_cells(lines.drop_last(), starts, sep, is_psv),
            lines.last(),
            starts[lines.len() - 1],
            sep,
            is_psv,
        )
    }
}

/// The offsets of lines of which the first starts at `offset`, with one line feed behind
/// each.
pub open spec fn consecutive(lines: Seq<Seq<char>>, offset: int) -> Seq<int> {
    Seq::new(lines.len(), |k: int| offset + lines_blen(lines.take(k)))
}

/// The values of offsets.
pub open spec fn ints(offsets: Seq<usize>) -> Seq<int> {
    offsets.map_values(|n: usize| n as int)
}

// ---------------------------------------------------------------------------
// Facts about the model.
// ---------------------------------------------------------------------------

proof fn lemma_last_ws(s: Seq<char>)
    ensures
        -1 <= last_ws(s) < s.len(),
    decreases s.len(),
{
    if s.len() > 0 {
        lemma_last_ws(s.drop_last());
    }
}

/// Handing specifiers on leaves no part longer than it was, nor with more escapes.
proof fn lemma_with_trailing_specs_bounds(parts: Seq<PartV>, continues: bool, sep: Seq<char>)
    ensures
        with_trailing_specs(parts, continues).len() == parts.len(),
        forall|i: int|
            #![trigger with_trailing_specs(parts, continues)[i]]
            0 <= i < parts.len() ==> {
                &&& with_trailing_specs(parts, continues)[i].start == parts[i].start
                &&& blen(with_trailing_specs(parts, continues)[i].content) <= blen(parts[i].content)
                &&& escapes(with_trailing_specs(parts, continues)[i].content, sep) <= escapes(
                    parts[i].content,
                    sep,
                )
            },
{
    let out = with_trailing_specs(parts, continues);
    assert forall|i: int| #![trigger out[i]] 0 <= i < parts.len() implies {
        &&& out[i].start == parts[i].start
        &&& blen(out[i].content) <= blen(parts[i].content)
        &&& escapes(out[i].content, sep) <= escapes(parts[i].content, sep)
    } by {
        let content = parts[i].content;
        lemma_last_ws(content);
        if last_ws(content) >= 0 {
            let front = content.take(last_ws(content));
            lemma_blen_split(content, last_ws(content));
            lemma_trim_blen(front);
            lemma_trimmed_len(front);
            lemma_escapes_front(content, sep, last_ws(content));
            lemma_escapes_front(front, sep, trimmed_len(front));
        }
    }
}

/// Every part of a line of a row lies within the line.
pub proof fn lemma_row_parts_bounds(line: Seq<char>, sep: Seq<char>, is_psv: bool)
    ensures
        row_parts(line, sep, is_psv).len() == split_spec(line, sep).len() >= 1,
        forall|i: int|
            #![trigger row_parts(line, sep, is_psv)[i]]
            0 <= i < row_parts(line, sep, is_psv).len() ==> {
                &&& 0 <= row_parts(line, sep, is_psv)[i].start
                &&& row_parts(line, sep, is_psv)[i].start + blen(
                    row_parts(line, sep, is_psv)[i].content,
                ) + escapes(row_parts(line, sep, is_psv)[i].content, sep) <= blen(line)
            },
{
    lemma_split_bounds(line, sep);
    let parts = split_spec(line, sep);
    let continues = !is_full_spec(trim_spec(parts[0].content));
    lemma_with_trailing_specs_bounds(parts, continues, sep);
    let out = row_parts(line, sep, is_psv);
    assert forall|i: int| #![trigger out[i]] 0 <= i < out.len() implies {
        &&& 0 <= out[i].start
        &&& out[i].start + blen(out[i].content) + escapes(out[i].content, sep) <= blen(line)
    } by {
        let before = parts[i];
        if is_psv {
            let after = with_trailing_specs(parts, continues)[i];
        }
    }
}

/// Each part of a line of a row is the front of a part of the line.
pub proof fn lemma_row_part_front(line: Seq<char>, sep: Seq<char>, is_psv: bool, k: int)
    requires
        0 <= k < row_parts(line, sep, is_psv).len(),
    ensures
        ({
            let part = row_parts(line, sep, is_psv)[k];
            let whole = split_spec(line, sep)[k];
            &&& part.start == whole.start
            &&& part.content.len() <= whole.content.len()
            &&& part.content == whole.content.take(part.content.len() as int)
        }),
{
    lemma_row_parts_bounds(line, sep, is_psv);
    let content = split_spec(line, sep)[k].content;
    lemma_last_ws(content);
    if last_ws(content) >= 0 {
        let front = content.take(last_ws(content));
        lemma_trimmed_len(front);
        assert(trim_end_spec(front) =~= content.take(trimmed_len(front)));
    }
    assert(content.take(content.len() as int) =~= content);
}

// ---------------------------------------------------------------------------
// Laws.
// ---------------------------------------------------------------------------

pub proof fn lemma_cells_from_parts(
    cells: Seq<CellV>,
    parts: Seq<PartV>,
    i: int,
    pending: Option<CellSpecifier>,
    offset: int,
    sep: Seq<char>,
    is_psv: bool,
    k: int,
)
    requires
        1 <= i <= parts.len() || (!is_psv && 0 <= i <= parts.len()),
    ensures
        cells_from(cells, parts, i, pending, offset, sep, is_psv).len() == cells.len()
            + parts.len() - i,
        0 <= k < parts.len() - i ==> exists|spec: Option<CellSpecifier>|
            cells_from(cells, parts, i, pending, offset, sep, is_psv)[cells.len() + k]
                == #[trigger] part_cell(parts[i + k], spec, offset, sep),
        forall|j: int|
            0 <= j < cells.len() ==> #[trigger] cells_from(
                cells,
                parts,
                i,
                pending,
                offset,
                sep,
                is_psv,
            )[j] == cells[j],
    decreases parts.len() - i,
{
    if i < parts.len() {
        let cell = part_cell(parts[i], pending, offset, sep);
        let next = if parts[i].forced is Some {
            pending
        } else {
            None
        };
        lemma_cells_from_parts(cells.push(cell), parts, i + 1, next, offset, sep, is_psv, k - 1);
        let all = cells_from(cells, parts, i, pending, offset, sep, is_psv);
        assert(all == cells_from(cells.push(cell), parts, i + 1, next, offset, sep, is_psv));
        if k == 0 {
            assert(all[cells.len() as int] == cell);
            assert(all[cells.len() + k] == part_cell(parts[i + k], pending, offset, sep));
        } else if 0 < k < parts.len() - i {
            let spec = choose|spec: Option<CellSpecifier>|
                all[cells.push(cell).len() + (k - 1)] == #[trigger] part_cell(
                    parts[i + 1 + (k - 1)],
                    spec,
                    offset,
                    sep,
                );
            assert(all[cells.len() + k] == part_cell(parts[i + k], spec, offset, sep));
        }
    }
}

/// Each cell of a row that is one line stands in that line: its text as it is written,
/// with its separators escaped, is the text at the byte that it starts at. Where the
/// line escapes nothing, it is the text itself.
pub proof fn law_cells_stand_in_the_line(
    line: Seq<char>,
    sep: Seq<char>,
    is_psv: bool,
    offset: int,
    k: int,
)
    requires
        0 <= k < row_cells(seq![line], seq![offset], sep, is_psv).len(),
    ensures
        ({
            let cell = row_cells(seq![line], seq![offset], sep, is_psv)[k];
            &&& exists|p: int| #[trigger]
                stands_at(line, as_written(cell.content, sep), cell.start - offset, p)
            &&& has_no_escapes(line, sep) ==> as_written(cell.content, sep) == cell.content
            &&& cell.content_start == cell.start
            &&& cell.end == last_byte(cell.start, blen(cell.content))
        }),
{
    let none = Seq::<CellV>::empty();
    let one = seq![line];
    assert(one.drop_last() =~= Seq::<Seq<char>>::empty());
    assert(row_cells(one.drop_last(), seq![offset], sep, is_psv) == none);
    let cells = row_cells(one, seq![offset], sep, is_psv);
    assert(cells == after_line(none, line, offset, sep, is_psv));
    assert(has_sep(line, sep));
    assert(sep != seq!['\\']);
    lemma_row_parts_bounds(line, sep, is_psv);
    let parts = row_parts(line, sep, is_psv);
    let skip: int = if is_psv {
        1
    } else {
        0
    };
    if is_psv {
        let pending = if leads_with_spec(parts[0].content) {
            Some(first_part_spec(trim_spec(parts[0].content)).0)
        } else {
            None
        };
        assert(cells == cells_from(none, parts, 1, pending, offset, sep, is_psv));
        lemma_cells_from_parts(none, parts, 1, pending, offset, sep, is_psv, k);
    } else {
        lemma_cells_from_parts(none, parts, 0, None, offset, sep, is_psv, k);
    }
    let part = parts[k + skip];
    let spec = choose|spec: Option<CellSpecifier>|
        cells[none.len() + k] == #[trigger] part_cell(parts[skip + k], spec, offset, sep);
    let cell = cells[k];
    assert(cell == part_cell(part, spec, offset, sep));
    let whole = split_spec(line, sep)[k + skip];
    law_parts_stand_as_written(line, sep, k + skip);
    let written = as_written(whole.content, sep);
    let p = choose|p: int| #[trigger] stands_at(line, written, whole.start, p);
    lemma_row_part_front(line, sep, is_psv, k + skip);
    let lead = leading_ws(part.content);
    let rest = trim_start_spec(part.content);
    lemma_leading_ws(part.content);
    lemma_trimmed_len(rest);
    let end = lead + trimmed_len(rest);
    assert(trim_spec(part.content) =~= whole.content.subrange(lead, end));
    assert(part.content.take(lead) =~= whole.content.take(lead));
    lemma_piece_stands(line, whole.content, sep, whole.start, p, lead, end);
    let q = p + as_written(whole.content.take(lead), sep).len();
    assert(stands_at(line, as_written(cell.content, sep), cell.start - offset, q));
    if has_no_escapes(line, sep) {
        lemma_written_plainly(line, cell.content, sep, cell.start - offset, q);
    }
}

// ---------------------------------------------------------------------------
// Executable operations.
// ---------------------------------------------------------------------------

/// The offset of the last byte of a text of `n` bytes at `start`.
pub fn end_of(start: usize, n: usize) -> (r: usize)
    requires
        start + n <= usize::MAX,
    ensures
        r == last_byte(start as int, n as nat),
{
    if n == 0 {
        start
    } else {
        start + (n - 1)
    }
}

/// Put more text behind that of the last cell.
pub fn extend_last_cell(
    cells: &mut Vec<ParsedCell>,
    text: &str,
    at: usize,
    join: &str,
    end: usize,
)
    ensures
        final(cells).deep_view() == extend_last(
            old(cells).deep_view(),
            text@,
            at as int,
            join@,
            end as int,
        ),
{
    let ghost before = cells.deep_view();
    match cells.pop() {
        None => {
            assert(cells.deep_view() =~= before);
        },
        Some(mut cell) => {
            let ghost old_cell = cell.deep_view();
            assert(cells.deep_view() =~= before.drop_last());
            assert(old_cell == before.last());
            if cell.content.as_str().unicode_len() == 0 {
                cell.content_start = at;
                cell.content = text.to_owned();
            } else {
                cell.content.append(join);
                cell.content.append(text);
            }
            cell.end = end;
            assert(cell.deep_view() =~= extend_cell(old_cell, text@, at as int, join@, end as int));
            cells.push(cell);
            assert(cells.deep_view() =~= before.drop_last().push(cell.deep_view()));
        },
    }
}

/// Whether a part ends in a specifier that stands alone behind white space or is
/// all of the part.
pub open spec fn ends_with_spec(content: Seq<char>) -> bool {
    is_full_spec(last_token(trim_end_spec(content)))
}

/// Whether a part ends in a specifier of its own.
pub fn part_ends_with_spec(content: &str) -> (r: bool)
    ensures
        r == ends_with_spec(content@),
{
    full_spec(token_at_end(trim_end(content))).is_some()
}

fn token_has_marker(token: &str) -> (r: bool)
    ensures
        r == has_marker(token@),
{
    contains_char(token, '+') || contains_char(token, '*') || contains_char(token, '<')
        || contains_char(token, '^') || contains_char(token, '>')
}

/// The specifier at the end of a part, and the part without it.
fn find_trailing_spec(content: &str, continues: bool) -> (r: Option<(String, CellSpecifier)>)
    ensures
        match r {
            Some(found) => trailing_spec(content@, continues) == Some((found.0@, found.1)),
            None => trailing_spec(content@, continues) is None,
        },
{
    if ends_in_whitespace(content) {
        return None;
    }
    let at: usize = match find_last_whitespace(content) {
        Some(i) => i,
        None => {
            return None;
        },
    };
    let token = token_at_end(content);
    if continues && !token_has_marker(token) {
        return None;
    }
    let cs = chars_of(token);
    let (_, _, align_end) = CellSpecifier::parse_alignments(&cs, 0);
    if align_end > 0 {
        let rest = token.substring_char(align_end, cs.len());
        assert(rest@ =~= token@.skip(align_end as int));
        if contains_char(rest, '+') || contains_char(rest, '*') {
            return None;
        }
    }
    match full_spec(token) {
        None => None,
        Some(spec) => {
            let before = content.substring_char(0, at);
            assert(before@ =~= content@.take(at as int));
            Some((trim_end(before).to_owned(), spec))
        },
    }
}

/// Hand the specifiers at the ends of parts to the parts that follow.
fn hand_on_specs(parts: &Vec<CellPart>, continues: bool) -> (r: Vec<CellPart>)
    ensures
        r.deep_view() == with_trailing_specs(parts.deep_view(), continues),
{
    let mut out: Vec<CellPart> = Vec::new();
    let mut carried: Option<CellSpecifier> = None;
    let mut i: usize = 0;
    let ghost want = with_trailing_specs(parts.deep_view(), continues);
    while i < parts.len()
        invariant
            i <= parts@.len(),
            want == with_trailing_specs(parts.deep_view(), continues),
            out.deep_view() == want.take(i as int),
            carried == (if i > 0 && trailing_spec(
                parts.deep_view()[i - 1].content,
                continues,
            ) is Some {
                Some(trailing_spec(parts.deep_view()[i - 1].content, continues)->Some_0.1)
            } else {
                None
            }),
        decreases parts.len() - i,
    {
        let part = &parts[i];
        let ghost before = out.deep_view();
        let found = find_trailing_spec(part.content.as_str(), continues);
        let forced_spec = if carried.is_some() {
            carried
        } else {
            part.forced_spec
        };
        let start = part.start;
        match found {
            Some((text, spec)) => {
                carried = Some(spec);
                let content = if i + 1 < parts.len() {
                    text
                } else {
                    part.content.clone()
                };
                out.push(CellPart { content, start, forced_spec });
            },
            None => {
                carried = None;
                out.push(CellPart { content: part.content.clone(), start, forced_spec });
            },
        }
        assert(out.deep_view() =~= before.push(out@[i as int].deep_view()));
        assert(parts.deep_view()[i as int] == part.deep_view());
        assert(out@[i as int].deep_view() =~= want[i as int]);
        i += 1;
        assert(want.take(i as int) =~= want.take(i - 1).push(want[i - 1]));
    }
    assert(want.take(i as int) =~= want);
    out
}

/// The parts of a line of a row.
fn split_row_line(line: &str, separator: &Separator<'_>, is_psv: bool) -> (r: Vec<CellPart>)
    requires
        separator.wf(),
    ensures
        r.deep_view() == row_parts(line@, separator.raw@, is_psv),
{
    let parts = split_line(line, separator);
    proof {
        lemma_split_bounds(line@, separator.raw@);
        assert(parts.deep_view().len() == parts@.len());
    }
    if is_psv {
        assert(parts.deep_view()[0].content == parts@[0].content@);
        let leads = full_spec(trim(parts[0].content.as_str())).is_some();
        hand_on_specs(&parts, !leads)
    } else {
        parts
    }
}

fn new_cell(content: &str, start: usize, spec: CellSpecifier) -> (r: ParsedCell)
    requires
        start + blen(content@) <= usize::MAX,
    ensures
        r.deep_view() == cell_of(content@, start as int, spec),
{
    ParsedCell {
        content: content.to_owned(),
        start,
        content_start: start,
        end: end_of(start, byte_len(content)),
        colspan: spec.colspan,
        rowspan: spec.rowspan,
        halign: spec.halign,
        valign: spec.valign,
        style: spec.style,
        is_duplication: spec.is_duplication,
        duplication_count: spec.duplication_count,
    }
}

/// The escapes in the white space before a text.
fn leading_escapes(content: &str, separator: &Separator<'_>) -> (r: usize)
    requires
        separator.wf(),
    ensures
        r == escapes(content@.take(leading_ws(content@)), separator.raw@),
{
    let ghost sep = separator.raw@;
    let c = match separator.kind {
        SepKind::SingleCodepoint(c) => c,
        _ => {
            return 0;
        },
    };
    if c == '\\' {
        return 0;
    }
    let cs = chars_of(content);
    let mut n: usize = 0;
    let mut i: usize = 0;
    proof {
        assert(content@.take(0) =~= Seq::empty());
        lemma_leading_ws(content@);
    }
    while i < cs.len() && is_whitespace(cs[i])
        invariant
            i <= cs@.len(),
            cs@ == content@,
            sep.len() == 1 && sep[0] == c && c != '\\',
            n <= i,
            n == escapes(content@.take(i as int), sep),
            forall|k: int| 0 <= k < i ==> is_ws(#[trigger] content@[k]),
        decreases cs.len() - i,
    {
        proof {
            let more = content@.take(i + 1);
            lemma_escapes_front(more, sep, i as int);
            assert(more.take(i as int) =~= content@.take(i as int));
            assert(more.skip(i as int) =~= seq![content@[i as int]]);
            assert(seq![content@[i as int]].drop_first() =~= Seq::empty());
            reveal_with_fuel(escapes, 2);
        }
        if cs[i] == c {
            n += 1;
        }
        i += 1;
    }
    n
}

fn part_text_start(part: &CellPart, offset: usize, separator: &Separator<'_>) -> (r: usize)
    requires
        separator.wf(),
        offset + part.start + blen(part.content@) + escapes(part.content@, separator.raw@)
            <= usize::MAX,
    ensures
        r == text_start(part.deep_view(), offset as int, separator.raw@),
        r + blen(trim_spec(part.content@)) <= usize::MAX,
{
    let content = part.content.as_str();
    proof {
        lemma_trim_blen(content@);
        lemma_leading_ws(content@);
        lemma_escapes_front(content@, separator.raw@, leading_ws(content@));
    }
    let escaped = leading_escapes(content, separator);
    offset + part.start + (byte_len(content) - byte_len(trim_start(content))) + escaped
}

/// Add the cells of one line with a separator.
fn push_line_cells(
    cells: &mut Vec<ParsedCell>,
    line: &str,
    offset: usize,
    separator: &Separator<'_>,
    is_psv: bool,
)
    requires
        separator.wf(),
        offset + blen(line@) <= usize::MAX,
    ensures
        final(cells).deep_view() == cells_from(
            old(cells).deep_view(),
            row_parts(line@, separator.raw@, is_psv),
            0,
            None,
            offset as int,
            separator.raw@,
            is_psv,
        ),
{
    let parts = split_row_line(line, separator, is_psv);
    let ghost pv = row_parts(line@, separator.raw@, is_psv);
    proof {
        lemma_row_parts_bounds(line@, separator.raw@, is_psv);
    }
    let mut pending: Option<CellSpecifier> = None;
    let mut i: usize = 0;
    let ghost sep = separator.raw@;
    let ghost want = cells_from(cells.deep_view(), pv, 0, None, offset as int, sep, is_psv);
    while i < parts.len()
        invariant
            i <= parts@.len(),
            separator.wf(),
            sep == separator.raw@,
            parts.deep_view() == pv,
            pv == row_parts(line@, sep, is_psv),
            offset + blen(line@) <= usize::MAX,
            forall|k: int|
                #![trigger pv[k]]
                0 <= k < pv.len() ==> 0 <= pv[k].start && pv[k].start + blen(pv[k].content)
                    + escapes(pv[k].content, sep) <= blen(line@),
            i == 0 ==> pending is None,
            want == cells_from(
                cells.deep_view(),
                pv,
                i as int,
                pending,
                offset as int,
                sep,
                is_psv,
            ),
        decreases parts.len() - i,
    {
        let part = &parts[i];
        assert(pv[i as int] == part.deep_view());
        let start = part_text_start(part, offset, separator);
        let text = trim(part.content.as_str());
        let ghost before = cells.deep_view();
        if i == 0 && is_psv {
            let spec = full_spec(text);
            let flush = !ends_in_whitespace(trim_start(part.content.as_str()));
            if flush && spec.is_some() {
                pending = spec;
            } else if text.unicode_len() > 0 && cells.len() > 0 {
                let end = end_of(start, byte_len(text));
                let last_end = cells[cells.len() - 1].end;
                assert(before.last() == cells@[cells@.len() - 1].deep_view());
                let join = "\n";
                proof {
                    reveal_strlit("\n");
                    assert(join@ =~= line_feed());
                }
                extend_last_cell(
                    cells,
                    text,
                    start,
                    join,
                    if end > last_end {
                        end
                    } else {
                        last_end
                    },
                );
            }
        } else {
            let spec = match part.forced_spec {
                Some(s) => s,
                None => match pending {
                    Some(s) => s,
                    None => CellSpecifier::default(),
                },
            };
            cells.push(new_cell(text, start, spec));
            assert(cells.deep_view() =~= before.push(
                part_cell(pv[i as int], pending, offset as int, sep),
            ));
            if part.forced_spec.is_none() {
                pending = None;
            }
        }
        i += 1;
    }
}

/// Read the lines of a row, which start at the offsets `starts`.
pub fn parse_row(
    row_lines: &[&str],
    starts: &[usize],
    separator: &Separator<'_>,
    is_psv: bool,
) -> (r: Vec<ParsedCell>)
    requires
        separator.wf(),
        starts@.len() == row_lines@.len(),
        forall|k: int|
            #![trigger starts@[k]]
            0 <= k < starts@.len() ==> starts@[k] + blen(row_lines@[k]@) <= usize::MAX,
    ensures
        r.deep_view() == row_cells(row_lines.deep_view(), ints(starts@), separator.raw@, is_psv),
{
    let mut cells: Vec<ParsedCell> = Vec::new();
    let mut i: usize = 0;
    let ghost all = row_lines.deep_view();
    let ghost at = ints(starts@);
    assert(all.take(0) =~= Seq::empty());
    assert(cells.deep_view() =~= Seq::empty());
    while i < row_lines.len()
        invariant
            i <= row_lines@.len(),
            separator.wf(),
            all == row_lines.deep_view(),
            at == ints(starts@),
            starts@.len() == row_lines@.len(),
            forall|k: int|
                #![trigger starts@[k]]
                0 <= k < starts@.len() ==> starts@[k] + blen(row_lines@[k]@) <= usize::MAX,
            cells.deep_view() == row_cells(all.take(i as int), at, separator.raw@, is_psv),
        decreases row_lines.len() - i,
    {
        let line = row_lines[i];
        let offset = starts[i];
        assert(all[i as int] == line@);
        assert(at[i as int] == offset);
        assert(all.take(i + 1).drop_last() =~= all.take(i as int));
        if line_has_unescaped_separator(line, separator) {
            push_line_cells(&mut cells, line, offset, separator, is_psv);
        } else {
            let join = "\n";
            proof {
                reveal_strlit("\n");
                assert(join@ =~= line_feed());
            }
            let end = end_of(offset, byte_len(line));
            extend_last_cell(&mut cells, line, offset, join, end);
        }
        i += 1;
    }
    assert(all.take(i as int) =~= all);
    cells
}

/// The offsets of lines of which the first starts at `offset`.
pub fn offsets_of(lines: &[&str], offset: usize) -> (r: Vec<usize>)
    requires
        offset + lines_blen(lines.deep_view()) <= usize::MAX,
    ensures
        ints(r@) == consecutive(lines.deep_view(), offset as int),
        r@.len() == lines@.len(),
        forall|k: int|
            #![trigger r@[k]]
            0 <= k < r@.len() ==> r@[k] + blen(lines@[k]@) <= usize::MAX,
{
    let mut starts: Vec<usize> = Vec::new();
    let mut at: usize = offset;
    let mut i: usize = 0;
    let ghost all = lines.deep_view();
    let ghost want = consecutive(all, offset as int);
    assert(all.take(0) =~= Seq::empty());
    while i < lines.len()
        invariant
            i <= lines@.len(),
            all == lines.deep_view(),
            want == consecutive(all, offset as int),
            offset + lines_blen(all) <= usize::MAX,
            at == offset + lines_blen(all.take(i as int)),
            starts@.len() == i,
            forall|k: int|
                #![trigger starts@[k]]
                0 <= k < i ==> starts@[k] == want[k] && starts@[k] + blen(lines@[k]@) <= usize::MAX,
        decreases lines.len() - i,
    {
        proof {
            assert(all[i as int] == lines@[i as int]@);
            lemma_lines_blen_step(all, i as int);
        }
        starts.push(at);
        at = at + (byte_len(lines[i]) + 1);
        i += 1;
    }
    assert(ints(starts@) =~= want);
    starts
}

} // verus!

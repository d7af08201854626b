//! Escaped separators in the source of a cell.
//!
//! The text of a cell is read without the backslashes of escaped separators, so
//! what is read behind such a backslash stands one byte further on in the source.
//! Laying the text beside the source finds the backslashes; every location behind
//! one is moved on.

use crate::model::{Location, Position};
use crate::table::separator::unescape;
use crate::text::{blen, lemma_blen_concat, lemma_blen_one, lemma_encode_concat};
use vstd::prelude::*;
use vstd::string::*;
use vstd::utf8::{encode_scalar, encode_utf8};

verus! {

/// A separator that was escaped: its offset in the text as it is read, and its
/// line and column.
#[derive(Clone, Copy, Debug, PartialEq, Eq, Structural)]
pub struct Mark {
    pub offset: usize,
    pub line: u32,
    pub column: u32,
}

// ---------------------------------------------------------------------------
// Where backslashes were left out.
// ---------------------------------------------------------------------------

/// The bytes of `text` from `j` on, before which the source from `i` on has a
/// backslash more. There are none to be given where the two differ otherwise.
pub open spec fn collapses_from(text: Seq<u8>, source: Seq<u8>, i: int, j: int) -> Option<Seq<int>>
    decreases text.len() - j,
{
    if j >= text.len() {
        Some(Seq::empty())
    } else if i < source.len() && source[i] == text[j] {
        collapses_from(text, source, i + 1, j + 1)
    } else if i + 1 < source.len() && source[i] == 0x5C && source[i + 1] == text[j] {
        match collapses_from(text, source, i + 2, j + 1) {
            Some(rest) => Some(seq![j] + rest),
            None => None,
        }
    } else {
        None
    }
}

/// A byte that begins a character.
pub open spec fn begins_char(b: u8) -> bool {
    !(0x80 <= b < 0xC0)
}

/// The number of characters that begin from `from` to `to`.
pub open spec fn chars_between(bytes: Seq<u8>, from: int, to: int) -> nat
    decreases to - from,
{
    if from >= to {
        0
    } else {
        chars_between(bytes, from, to - 1) + (if begins_char(bytes[to - 1]) {
            1nat
        } else {
            0nat
        })
    }
}

/// The number of line feeds before `to`.
pub open spec fn feeds_before(bytes: Seq<u8>, to: int) -> nat
    decreases to,
{
    if to <= 0 {
        0
    } else {
        feeds_before(bytes, to - 1) + (if bytes[to - 1] == 0x0A {
            1nat
        } else {
            0nat
        })
    }
}

/// The start of the line that `to` stands in.
pub open spec fn line_start(bytes: Seq<u8>, to: int) -> int
    decreases to,
{
    if to <= 0 {
        0
    } else if bytes[to - 1] == 0x0A {
        to
    } else {
        line_start(bytes, to - 1)
    }
}

/// The line and column of the byte `q` of a text that begins at `base`.
pub open spec fn mark_of(bytes: Seq<u8>, q: int, base: Position, offset: int) -> (int, int, int) {
    let line = base.line + feeds_before(bytes, q);
    let chars = chars_between(bytes, line_start(bytes, q), q);
    (
        offset + q,
        line,
        if line == base.line {
            base.column + chars
        } else {
            chars as int + 1
        },
    )
}

/// The marks of the bytes `escapes` of a text that begins at `base`.
pub open spec fn marks_of(
    bytes: Seq<u8>,
    escapes: Seq<int>,
    base: Position,
    offset: int,
) -> Seq<Mark> {
    Seq::new(
        escapes.len(),
        |k: int|
            Mark {
                offset: mark_of(bytes, escapes[k], base, offset).0 as usize,
                line: mark_of(bytes, escapes[k], base, offset).1 as u32,
                column: mark_of(bytes, escapes[k], base, offset).2 as u32,
            },
    )
}

/// Whether the source holds a text that begins at `offset`: it is no further than
/// the end, and not within a character.
pub open spec fn is_text_offset(source: Seq<u8>, offset: int) -> bool {
    offset == source.len() || (0 <= offset < source.len() && begins_char(source[offset]))
}

/// The marks by which the locations of a cell are moved.
pub open spec fn cell_marks(
    text: Seq<char>,
    source: Seq<char>,
    base: Position,
    offset: int,
) -> Seq<Mark> {
    let bytes = encode_utf8(source);
    if !is_text_offset(bytes, offset) {
        Seq::empty()
    } else {
        match collapses_from(encode_utf8(text), bytes, offset, 0) {
            Some(escapes) => marks_of(encode_utf8(text), escapes, base, offset),
            None => Seq::empty(),
        }
    }
}

// ---------------------------------------------------------------------------
// Moving a location.
// ---------------------------------------------------------------------------

/// The number of marks at the front whose offset is less than `limit`.
pub open spec fn marks_below(marks: Seq<Mark>, limit: int) -> nat
    decreases marks.len(),
{
    if marks.len() == 0 || marks[0].offset >= limit {
        0
    } else {
        1 + marks_below(marks.drop_first(), limit)
    }
}

/// The number of marks of a line that are not behind a column.
pub open spec fn marks_in_line(marks: Seq<Mark>, line: u32, column: u32) -> nat
    decreases marks.len(),
{
    if marks.len() == 0 {
        0
    } else {
        marks_in_line(marks.drop_last(), line, column) + (if marks.last().line == line
            && marks.last().column <= column {
            1nat
        } else {
            0nat
        })
    }
}

/// A position with its column moved past the backslashes before it.
pub open spec fn moved_position(p: Position, marks: Seq<Mark>) -> Position {
    let n = marks_in_line(marks, p.line, p.column);
    Position {
        line: p.line,
        column: p.column.saturating_add(
            if n <= u32::MAX {
                n as u32
            } else {
                0
            },
        ),
    }
}

/// A location moved past the backslashes before it. Its start moves past the
/// backslash of a separator that it stands on; its end, which lies behind, does
/// not.
pub open spec fn moved_location(l: Location, marks: Seq<Mark>) -> Location {
    Location {
        absolute_start: l.absolute_start.saturating_add(
            marks_below(marks, l.absolute_start + 1) as usize,
        ),
        absolute_end: l.absolute_end.saturating_add(
            marks_below(marks, l.absolute_end as int) as usize,
        ),
        start: moved_position(l.start, marks),
        end: moved_position(l.end, marks),
    }
}

// ---------------------------------------------------------------------------
// Laws.
// ---------------------------------------------------------------------------

/// Without marks nothing moves.
pub proof fn law_no_marks_no_move(l: Location)
    ensures
        moved_location(l, Seq::empty()) == l,
{
}

proof fn lemma_collapses_equal(text: Seq<u8>, source: Seq<u8>, i: int, j: int, n: int)
    requires
        0 <= i,
        0 <= j <= n <= text.len(),
        i + (n - j) <= source.len(),
        forall|k: int| j <= k < n ==> #[trigger] text[k] == source[i + (k - j)],
    ensures
        collapses_from(text, source, i, j) == collapses_from(text, source, i + (n - j), n),
    decreases n - j,
{
    if j < n {
        assert(text[j] == source[i]);
        lemma_collapses_equal(text, source, i + 1, j + 1, n);
    }
}

proof fn lemma_collapses_unescaped(
    pre_text: Seq<u8>,
    pre_source: Seq<u8>,
    s: Seq<char>,
    c: char,
    tail: Seq<u8>,
)
    requires
        c != '\\',
    ensures
        ({
            let text = pre_text + encode_utf8(unescape(s, c));
            let source = pre_source + encode_utf8(s) + tail;
            let found = collapses_from(
                text,
                source,
                pre_source.len() as int,
                pre_text.len() as int,
            );
            &&& found is Some
            &&& found->Some_0.len() + blen(unescape(s, c)) == blen(s)
        }),
    decreases s.len(),
{
    let text = pre_text + encode_utf8(unescape(s, c));
    let source = pre_source + encode_utf8(s) + tail;
    let i = pre_source.len() as int;
    let j = pre_text.len() as int;
    if s.len() == 0 {
        assert(encode_utf8(unescape(s, c)) =~= Seq::<u8>::empty());
        assert(encode_utf8(s) =~= Seq::<u8>::empty());
    } else {
        let escaped = s.len() >= 2 && s[0] == '\\' && s[1] == c;
        let kept = if escaped {
            c
        } else {
            s[0]
        };
        let rest = if escaped {
            s.skip(2)
        } else {
            s.drop_first()
        };
        let head = encode_utf8(seq![kept]);
        lemma_encode_concat(seq![kept], unescape(rest, c));
        lemma_blen_concat(seq![kept], unescape(rest, c));
        assert(encode_utf8(unescape(s, c)) == head + encode_utf8(unescape(rest, c)));
        lemma_blen_one(kept);
        let slash: Seq<u8> = if escaped {
            encode_utf8(seq!['\\'])
        } else {
            Seq::empty()
        };
        assert(encode_utf8(s) == slash + head + encode_utf8(rest)) by {
            if escaped {
                assert(s =~= seq!['\\'] + (seq![c] + rest));
                lemma_encode_concat(seq!['\\'], seq![c] + rest);
                lemma_encode_concat(seq![c], rest);
                assert(slash + (head + encode_utf8(rest)) =~= slash + head + encode_utf8(rest));
            } else {
                assert(s =~= seq![kept] + rest);
                lemma_encode_concat(seq![kept], rest);
                assert(slash + head =~= head);
            }
        }
        let next_text = pre_text + head;
        let next_source = pre_source + slash + head;
        assert(text =~= next_text + encode_utf8(unescape(rest, c)));
        assert(source =~= next_source + encode_utf8(rest) + tail);
        lemma_collapses_unescaped(next_text, next_source, rest, c, tail);
        lemma_single_bytes();
        if escaped {
            assert(slash.len() == 1 && slash[0] == 0x5C);
            assert(source[i] == 0x5C);
            assert(text[j] == head[0]);
            assert(source[i + 1] == head[0]);
            lemma_first_byte(c);
            assert(source[i] != text[j]);
            assert(forall|k: int|
                j + 1 <= k < j + head.len() ==> #[trigger] text[k] == head[k - j]);
            assert(forall|k: int|
                0 <= k < head.len() ==> #[trigger] source[i + 1 + k] == head[k]);
            assert forall|k: int| j + 1 <= k < j + head.len() implies #[trigger] text[k] == source[i
                + 2 + (k - (j + 1))] by {
                assert(source[i + 1 + (k - j)] == head[k - j]);
            }
            lemma_collapses_equal(text, source, i + 2, j + 1, (j + head.len()) as int);
            let after = collapses_from(text, source, i + 2, j + 1);
            assert(collapses_from(text, source, i, j) == Some(seq![j] + after->Some_0));
            assert(blen(s) == 1 + blen(seq![kept]) + blen(rest));
        } else {
            assert(forall|k: int| 0 <= k < head.len() ==> #[trigger] source[i + k] == head[k]);
            assert forall|k: int| j <= k < j + head.len() implies #[trigger] text[k] == source[i + (k
                - j)] by {
                assert(text[k] == head[k - j]);
                assert(source[i + (k - j)] == head[k - j]);
            }
            lemma_collapses_equal(text, source, i, j, (j + head.len()) as int);
            assert(blen(s) == blen(seq![kept]) + blen(rest));
        }
    }
}

/// A backslash is one byte.
proof fn lemma_single_bytes()
    ensures
        encode_utf8(seq!['\\']) == seq![0x5Cu8],
{
    lemma_encode_one('\\');
    assert((0x5Cu32 & 0x7F) as u8 == 0x5C) by (bit_vector);
    assert(encode_scalar('\\' as u32) =~= seq![0x5Cu8]);
}

proof fn lemma_encode_one(c: char)
    ensures
        encode_utf8(seq![c]) == encode_scalar(c as u32),
{
    assert(seq![c].drop_first() =~= Seq::<char>::empty());
    assert(encode_utf8(seq![c].drop_first()) =~= Seq::<u8>::empty());
    assert(encode_utf8(seq![c]) =~= encode_scalar(c as u32));
}

/// Only a backslash begins with the byte of a backslash.
proof fn lemma_first_byte(c: char)
    requires
        c != '\\',
    ensures
        encode_utf8(seq![c]).len() > 0,
        encode_utf8(seq![c])[0] != 0x5C,
{
    lemma_encode_one(c);
    let v = c as u32;
    assert(v <= 0x7F && v != 0x5C ==> (v & 0x7F) as u8 != 0x5C) by (bit_vector);
    assert(0xC0 | ((v >> 6) & 0x1F) as u8 != 0x5C) by (bit_vector);
    assert(0xE0 | ((v >> 12) & 0x0F) as u8 != 0x5C) by (bit_vector);
    assert(0xF0 | ((v >> 18) & 0x7) as u8 != 0x5C) by (bit_vector);
}

/// The text of a cell without the backslashes of its escaped separators can always
/// be laid beside its source, and exactly the backslashes that were taken out are
/// found.
pub proof fn law_escapes_are_found(s: Seq<char>, c: char, tail: Seq<u8>)
    requires
        c != '\\',
    ensures
        ({
            let found = collapses_from(
                encode_utf8(unescape(s, c)),
                encode_utf8(s) + tail,
                0,
                0,
            );
            &&& found is Some
            &&& found->Some_0.len() + blen(unescape(s, c)) == blen(s)
        }),
{
    let none = Seq::<u8>::empty();
    lemma_collapses_unescaped(none, none, s, c, tail);
    assert(none + encode_utf8(unescape(s, c)) =~= encode_utf8(unescape(s, c)));
    assert(none + encode_utf8(s) + tail =~= encode_utf8(s) + tail);
}

/// Finding the escapes goes through the text from front to back.
proof fn lemma_collapses(text: Seq<u8>, source: Seq<u8>, i: int, j: int)
    requires
        0 <= j <= text.len(),
    ensures
        collapses_from(text, source, i, j) matches Some(found) ==> forall|k: int|
            0 <= k < found.len() ==> j <= #[trigger] found[k] < text.len(),
    decreases text.len() - j,
{
    if j < text.len() {
        lemma_collapses(text, source, i + 1, j + 1);
        lemma_collapses(text, source, i + 2, j + 1);
    }
}

/// The number of escapes at the front that are not behind the byte `q`.
pub open spec fn escapes_up_to(escapes: Seq<int>, q: int) -> nat
    decreases escapes.len(),
{
    if escapes.len() == 0 || escapes[0] > q {
        0
    } else {
        1 + escapes_up_to(escapes.drop_first(), q)
    }
}

proof fn lemma_escapes_grow(escapes: Seq<int>, q: int, p: int)
    requires
        q <= p,
    ensures
        escapes_up_to(escapes, q) <= escapes_up_to(escapes, p),
    decreases escapes.len(),
{
    if escapes.len() > 0 {
        lemma_escapes_grow(escapes.drop_first(), q, p);
    }
}

/// Each byte of the text stands in the source as much further on as there are
/// escapes up to it.
proof fn lemma_collapsed_bytes(text: Seq<u8>, source: Seq<u8>, i: int, j: int, q: int)
    requires
        0 <= i,
        0 <= j <= q < text.len(),
        collapses_from(text, source, i, j) is Some,
    ensures
        ({
            let found = collapses_from(text, source, i, j)->Some_0;
            let at = i + (q - j) + escapes_up_to(found, q);
            &&& at < source.len()
            &&& source[at] == text[q]
        }),
    decreases text.len() - j,
{
    let found = collapses_from(text, source, i, j)->Some_0;
    if i < source.len() && source[i] == text[j] {
        if q > j {
            lemma_collapsed_bytes(text, source, i + 1, j + 1, q);
        } else {
            lemma_collapses(text, source, i + 1, j + 1);
        }
    } else {
        let rest = collapses_from(text, source, i + 2, j + 1)->Some_0;
        assert(found == seq![j] + rest);
        assert(found.drop_first() =~= rest);
        if q > j {
            lemma_collapsed_bytes(text, source, i + 2, j + 1, q);
        } else {
            lemma_collapses(text, source, i + 2, j + 1);
        }
    }
}

proof fn lemma_marks_of_escapes(
    bytes: Seq<u8>,
    escapes: Seq<int>,
    base: Position,
    offset: int,
    k: int,
    q: int,
)
    requires
        0 <= k <= escapes.len(),
        0 <= offset,
        offset + bytes.len() <= usize::MAX,
        forall|m: int| 0 <= m < escapes.len() ==> 0 <= #[trigger] escapes[m] < bytes.len(),
    ensures
        marks_below(marks_of(bytes, escapes, base, offset).skip(k), offset + q + 1)
            == escapes_up_to(escapes.skip(k), q),
    decreases escapes.len() - k,
{
    let marks = marks_of(bytes, escapes, base, offset);
    if k < escapes.len() {
        lemma_marks_of_escapes(bytes, escapes, base, offset, k + 1, q);
        assert(marks.skip(k).drop_first() =~= marks.skip(k + 1));
        assert(escapes.skip(k).drop_first() =~= escapes.skip(k + 1));
        assert(marks.skip(k)[0] == marks[k]);
        assert(marks[k].offset == offset + escapes[k]);
    }
}

/// A location in the text of a cell is moved to where the text stands in the source:
/// at its start and just before its end the source holds the bytes that the text
/// holds there.
pub proof fn law_moved_locations_hold_the_text(
    text: Seq<char>,
    source: Seq<char>,
    base: Position,
    offset: int,
    l: Location,
)
    requires
        is_text_offset(encode_utf8(source), offset),
        collapses_from(encode_utf8(text), encode_utf8(source), offset, 0) is Some,
        blen(source) <= usize::MAX,
        offset <= l.absolute_start < l.absolute_end <= offset + blen(text),
    ensures
        ({
            let moved = moved_location(l, cell_marks(text, source, base, offset));
            let bytes = encode_utf8(source);
            &&& moved.absolute_start < moved.absolute_end <= bytes.len()
            &&& bytes[moved.absolute_start as int] == encode_utf8(text)[l.absolute_start - offset]
            &&& bytes[moved.absolute_end - 1] == encode_utf8(text)[l.absolute_end - offset - 1]
        }),
{
    let tb = encode_utf8(text);
    let sb = encode_utf8(source);
    let found = collapses_from(tb, sb, offset, 0)->Some_0;
    let marks = cell_marks(text, source, base, offset);
    let first = l.absolute_start - offset;
    let last = l.absolute_end - offset - 1;
    lemma_collapses(tb, sb, offset, 0);
    lemma_collapsed_bytes(tb, sb, offset, 0, tb.len() - 1);
    lemma_collapsed_bytes(tb, sb, offset, 0, first);
    lemma_collapsed_bytes(tb, sb, offset, 0, last);
    lemma_escapes_grow(found, first, last);
    lemma_marks_of_escapes(tb, found, base, offset, 0, first);
    lemma_marks_of_escapes(tb, found, base, offset, 0, last);
    assert(marks.skip(0) =~= marks);
    assert(found.skip(0) =~= found);
}

proof fn lemma_feeds(bytes: Seq<u8>, to: int)
    requires
        0 <= to,
    ensures
        feeds_before(bytes, to) <= to,
        0 <= line_start(bytes, to) <= to,
    decreases to,
{
    if to > 0 {
        lemma_feeds(bytes, to - 1);
    }
}

proof fn lemma_chars_between(bytes: Seq<u8>, from: int, to: int)
    requires
        from <= to,
    ensures
        chars_between(bytes, from, to) <= to - from,
    decreases to - from,
{
    if from < to {
        lemma_chars_between(bytes, from, to - 1);
    }
}

/// The line and the column of a byte are counted from the start of the text: a line feed
/// begins a line, at its first column, and every other character takes one column.
pub proof fn law_lines_and_columns(bytes: Seq<u8>, q: int, base: Position, offset: int)
    requires
        0 <= q < bytes.len(),
    ensures
        mark_of(bytes, 0, base, offset) == (offset, base.line as int, base.column as int),
        mark_of(bytes, q + 1, base, offset).0 == mark_of(bytes, q, base, offset).0 + 1,
        bytes[q] == 0x0A ==> mark_of(bytes, q + 1, base, offset).1 == mark_of(
            bytes,
            q,
            base,
            offset,
        ).1 + 1 && mark_of(bytes, q + 1, base, offset).2 == 1,
        bytes[q] != 0x0A ==> mark_of(bytes, q + 1, base, offset).1 == mark_of(
            bytes,
            q,
            base,
            offset,
        ).1,
        bytes[q] != 0x0A && (bytes[q] < 0x80 || bytes[q] >= 0xC0) ==> mark_of(
            bytes,
            q + 1,
            base,
            offset,
        ).2 == mark_of(bytes, q, base, offset).2 + 1,
        0x80 <= bytes[q] < 0xC0 ==> mark_of(bytes, q + 1, base, offset).2 == mark_of(
            bytes,
            q,
            base,
            offset,
        ).2,
{
    lemma_line_start_before(bytes, q);
}

proof fn lemma_line_start_before(bytes: Seq<u8>, to: int)
    requires
        0 <= to <= bytes.len(),
    ensures
        0 <= line_start(bytes, to) <= to,
    decreases to,
{
    if to > 0 && bytes[to - 1] != 0x0A {
        lemma_line_start_before(bytes, to - 1);
    }
}

// ---------------------------------------------------------------------------
// Executable operations.
// ---------------------------------------------------------------------------

/// The bytes of `text` before which the source, from `from` on, has a backslash
/// more.
fn find_collapses(text: &[u8], source: &[u8], from: usize) -> (r: Option<Vec<usize>>)
    requires
        from <= source@.len(),
    ensures
        match r {
            Some(found) => collapses_from(text@, source@, from as int, 0) == Some(
                found@.map_values(|q: usize| q as int),
            ),
            None => collapses_from(text@, source@, from as int, 0) is None,
        },
{
    let mut found: Vec<usize> = Vec::new();
    let mut i: usize = from;
    let mut j: usize = 0;
    let ghost want = collapses_from(text@, source@, from as int, 0);
    proof {
        let none = Seq::<int>::empty();
        assert(found@.map_values(|q: usize| q as int) =~= none);
        if want is Some {
            assert(none + want->Some_0 =~= want->Some_0);
        }
    }
    while j < text.len()
        invariant
            j <= text@.len(),
            i <= source@.len(),
            match collapses_from(text@, source@, i as int, j as int) {
                Some(rest) => want == Some(found@.map_values(|q: usize| q as int) + rest),
                None => want is None,
            },
            want == collapses_from(text@, source@, from as int, 0),
        decreases text.len() - j,
    {
        if i < source.len() && source[i] == text[j] {
            i += 1;
            j += 1;
        } else if i < source.len() && i + 1 < source.len() && source[i] == 0x5C && source[i + 1]
            == text[j] {
            let ghost before = found@.map_values(|q: usize| q as int);
            found.push(j);
            assert(found@.map_values(|q: usize| q as int) =~= before.push(j as int));
            proof {
                match collapses_from(text@, source@, i + 2, j + 1) {
                    Some(rest) => {
                        assert(before + (seq![j as int] + rest) =~= before.push(j as int) + rest);
                    },
                    None => {},
                }
            }
            i += 2;
            j += 1;
        } else {
            return None;
        }
    }
    proof {
        let all = found@.map_values(|q: usize| q as int);
        assert(all + Seq::<int>::empty() =~= all);
    }
    Some(found)
}

/// The bytes of the text of a cell before which its source has a backslash more,
/// or `None` where the two differ otherwise.
pub fn escape_collapse_positions(collapsed: &str, original_tail: &str) -> (r: Option<Vec<usize>>)
    ensures
        match r {
            Some(found) => collapses_from(
                encode_utf8(collapsed@),
                encode_utf8(original_tail@),
                0,
                0,
            ) == Some(found@.map_values(|q: usize| q as int)),
            None => collapses_from(
                encode_utf8(collapsed@),
                encode_utf8(original_tail@),
                0,
                0,
            ) is None,
        },
{
    find_collapses(collapsed.as_bytes(), original_tail.as_bytes(), 0)
}

/// The mark of the byte `q` of a text that begins at `base`.
fn make_mark(bytes: &[u8], q: usize, base: Position, offset: usize) -> (r: Mark)
    requires
        q < bytes@.len(),
        offset + bytes@.len() <= usize::MAX,
        base.line + bytes@.len() <= u32::MAX,
        base.column + bytes@.len() <= u32::MAX,
    ensures
        (r.offset as int, r.line as int, r.column as int) == mark_of(
            bytes@,
            q as int,
            base,
            offset as int,
        ),
{
    let mut line: u32 = base.line;
    let mut chars: u32 = 0;
    let mut k: usize = 0;
    while k < q
        invariant
            k <= q < bytes@.len(),
            base.line + bytes@.len() <= u32::MAX,
            line == base.line + feeds_before(bytes@, k as int),
            chars == chars_between(bytes@, line_start(bytes@, k as int), k as int),
            feeds_before(bytes@, k as int) <= k,
            0 <= line_start(bytes@, k as int) <= k,
            chars <= k,
        decreases q - k,
    {
        let b = bytes[k];
        proof {
            lemma_feeds(bytes@, k + 1);
            lemma_chars_between(bytes@, line_start(bytes@, k + 1), k + 1);
        }
        if b == 0x0A {
            line += 1;
            chars = 0;
        } else if !(0x80 <= b && b < 0xC0) {
            chars += 1;
        }
        k += 1;
    }
    let column: u32 = if line == base.line {
        base.column + chars
    } else {
        chars + 1
    };
    Mark { offset: offset + q, line, column }
}

/// The marks by which the locations of a cell are moved: `content` is its text as
/// it is read, which begins at `cell_start_offset` of `input`, the position
/// `base`.
pub fn find_marks(
    content: &str,
    input: &str,
    base: Position,
    cell_start_offset: usize,
) -> (r: Vec<Mark>)
    requires
        cell_start_offset + blen(content@) <= usize::MAX,
        base.line + blen(content@) <= u32::MAX,
        base.column + blen(content@) <= u32::MAX,
    ensures
        r@ == cell_marks(content@, input@, base, cell_start_offset as int),
{
    let source = input.as_bytes();
    let text = content.as_bytes();
    let mut marks: Vec<Mark> = Vec::new();
    let inside = cell_start_offset == source.len() || (cell_start_offset < source.len() && !(0x80
        <= source[cell_start_offset] && source[cell_start_offset] < 0xC0));
    if !inside {
        return marks;
    }
    match find_collapses(text, source, cell_start_offset) {
        None => marks,
        Some(escapes) => {
            let ghost ev = escapes@.map_values(|q: usize| q as int);
            let ghost want = marks_of(text@, ev, base, cell_start_offset as int);
            proof {
                lemma_collapses(text@, source@, cell_start_offset as int, 0);
            }
            let mut k: usize = 0;
            while k < escapes.len()
                invariant
                    k <= escapes@.len(),
                    ev == escapes@.map_values(|q: usize| q as int),
                    want == marks_of(text@, ev, base, cell_start_offset as int),
                    text@ == encode_utf8(content@),
                    cell_start_offset + text@.len() <= usize::MAX,
                    base.line + text@.len() <= u32::MAX,
                    base.column + text@.len() <= u32::MAX,
                    forall|j: int| 0 <= j < ev.len() ==> 0 <= #[trigger] ev[j] < text@.len(),
                    marks@ == want.take(k as int),
                decreases escapes.len() - k,
            {
                let q = escapes[k];
                assert(ev[k as int] == q);
                marks.push(make_mark(text, q, base, cell_start_offset));
                assert(want.take(k + 1) =~= want.take(k as int).push(want[k as int]));
                k += 1;
            }
            assert(want.take(k as int) =~= want);
            marks
        },
    }
}

fn count_below(marks: &Vec<Mark>, limit: usize, inclusive: bool) -> (r: usize)
    ensures
        r == marks_below(marks@, limit + (if inclusive {
            1int
        } else {
            0int
        })),
        r <= marks@.len(),
{
    let ghost bound = limit + (if inclusive {
        1int
    } else {
        0int
    });
    let mut k: usize = 0;
    assert(marks@.skip(0) =~= marks@);
    while k < marks.len()
        invariant
            k <= marks@.len(),
            bound == limit + (if inclusive {
                1int
            } else {
                0int
            }),
            marks_below(marks@, bound) == k + marks_below(marks@.skip(k as int), bound),
        decreases marks.len() - k,
    {
        let offset = marks[k].offset;
        if !(offset < limit || (inclusive && offset == limit)) {
            return k;
        }
        assert(marks@.skip(k as int).drop_first() =~= marks@.skip(k + 1));
        k += 1;
    }
    k
}

fn count_in_line(marks: &Vec<Mark>, line: u32, column: u32) -> (r: usize)
    ensures
        r == marks_in_line(marks@, line, column),
{
    let mut n: usize = 0;
    let mut k: usize = 0;
    assert(marks@.take(0) =~= Seq::empty());
    while k < marks.len()
        invariant
            k <= marks@.len(),
            n <= k,
            n == marks_in_line(marks@.take(k as int), line, column),
        decreases marks.len() - k,
    {
        assert(marks@.take(k + 1).drop_last() =~= marks@.take(k as int));
        if marks[k].line == line && marks[k].column <= column {
            n += 1;
        }
        k += 1;
    }
    assert(marks@.take(k as int) =~= marks@);
    n
}

fn move_position(p: Position, marks: &Vec<Mark>) -> (r: Position)
    ensures
        r == moved_position(p, marks@),
{
    let n = count_in_line(marks, p.line, p.column);
    let shift: u32 = if n <= u32::MAX as usize {
        n as u32
    } else {
        0
    };
    Position { line: p.line, column: p.column.saturating_add(shift) }
}

/// Move a location past the backslashes before it.
pub fn move_location(location: &mut Location, marks: &Vec<Mark>)
    ensures
        *final(location) == moved_location(*old(location), marks@),
{
    let start_shift = count_below(marks, location.absolute_start, true);
    let end_shift = count_below(marks, location.absolute_end, false);
    *location = Location {
        absolute_start: location.absolute_start.saturating_add(start_shift),
        absolute_end: location.absolute_end.saturating_add(end_shift),
        start: move_position(location.start, marks),
        end: move_position(location.end, marks),
    };
}

} // verus!

//! Cell specifiers: the span, alignment and style that an author writes in
//! front of a cell separator, as in `2.3+^.>s|`.
//!
//! The alignment may stand behind the span operator (`2+^`) or before the span
//! (`^2+`).

use crate::model::{ColumnStyle, HorizontalAlignment, VerticalAlignment};
use crate::text::{
    blen, chars_of, digits_end, digits_value, is_digit, lemma_blen_ascii, lemma_digits_end,
    parse_number_at,
};
use vstd::prelude::*;
use vstd::string::*;

verus! {

/// Where the text stands that a specifier is read from.
#[derive(Debug, Clone, Copy, PartialEq, Eq, Structural)]
pub enum ParseContext {
    /// The text before a separator: every form of specifier is read.
    FirstPart,
    /// The text of a cell: no specifier is read from it.
    InlineContent,
}

/// The span, alignment and style of a cell.
#[derive(Debug, Clone, Copy)]
pub struct CellSpecifier {
    pub colspan: usize,
    pub rowspan: usize,
    pub halign: Option<HorizontalAlignment>,
    pub valign: Option<VerticalAlignment>,
    pub style: Option<ColumnStyle>,
    /// Whether the cell is repeated (`*`) and not spanned (`+`).
    pub is_duplication: bool,
    /// How often the cell is repeated; 1 for a span.
    pub duplication_count: usize,
}

// ---------------------------------------------------------------------------
// The grammar.
// ---------------------------------------------------------------------------

/// The specifier of a cell that has none.
pub open spec fn plain_spec() -> CellSpecifier {
    styled(None, None, None)
}

/// A specifier without span or duplication.
pub open spec fn styled(
    halign: Option<HorizontalAlignment>,
    valign: Option<VerticalAlignment>,
    style: Option<ColumnStyle>,
) -> CellSpecifier {
    CellSpecifier {
        colspan: 1,
        rowspan: 1,
        halign,
        valign,
        style,
        is_duplication: false,
        duplication_count: 1,
    }
}

/// The style that a letter stands for.
pub open spec fn style_of(c: char) -> Option<ColumnStyle> {
    if c == 'a' {
        Some(ColumnStyle::AsciiDoc)
    } else if c == 'd' {
        Some(ColumnStyle::Default)
    } else if c == 'e' {
        Some(ColumnStyle::Emphasis)
    } else if c == 'h' {
        Some(ColumnStyle::Header)
    } else if c == 'l' {
        Some(ColumnStyle::Literal)
    } else if c == 'm' {
        Some(ColumnStyle::Monospace)
    } else if c == 's' {
        Some(ColumnStyle::Strong)
    } else {
        None
    }
}

/// The horizontal alignment that a character stands for.
pub open spec fn halign_of(c: char) -> Option<HorizontalAlignment> {
    if c == '<' {
        Some(HorizontalAlignment::Left)
    } else if c == '^' {
        Some(HorizontalAlignment::Center)
    } else if c == '>' {
        Some(HorizontalAlignment::Right)
    } else {
        None
    }
}

/// The vertical alignment that a character stands for behind a dot.
pub open spec fn valign_of(c: char) -> Option<VerticalAlignment> {
    if c == '<' {
        Some(VerticalAlignment::Top)
    } else if c == '^' {
        Some(VerticalAlignment::Middle)
    } else if c == '>' {
        Some(VerticalAlignment::Bottom)
    } else {
        None
    }
}

/// The character at `pos`, if there is one.
pub open spec fn char_at(s: Seq<char>, pos: int) -> Option<char> {
    if 0 <= pos < s.len() {
        Some(s[pos])
    } else {
        None
    }
}

/// The style letter at `pos`, if there is one.
pub open spec fn style_at(s: Seq<char>, pos: int) -> Option<ColumnStyle> {
    match char_at(s, pos) {
        Some(c) => style_of(c),
        None => None,
    }
}

/// `pos`, or the position behind it where something was read there.
pub open spec fn past<T>(read: Option<T>, pos: int) -> int {
    if read is Some {
        pos + 1
    } else {
        pos
    }
}

/// The horizontal alignment at `pos`, if there is one.
pub open spec fn halign_at(s: Seq<char>, pos: int) -> Option<HorizontalAlignment> {
    match char_at(s, pos) {
        Some(c) => halign_of(c),
        None => None,
    }
}

/// The vertical alignment at `pos`, if there is one: a dot and an alignment
/// character.
pub open spec fn valign_at(s: Seq<char>, pos: int) -> Option<VerticalAlignment> {
    if char_at(s, pos) == Some('.') {
        match char_at(s, pos + 1) {
            Some(c) => valign_of(c),
            None => None,
        }
    } else {
        None
    }
}

/// At most one horizontal and at most one vertical alignment at `pos`, and the
/// position behind them.
pub open spec fn align_spec(s: Seq<char>, pos: int) -> (
    Option<HorizontalAlignment>,
    Option<VerticalAlignment>,
    int,
) {
    let halign = halign_at(s, pos);
    let mid = past(halign, pos);
    let valign = valign_at(s, mid);
    (halign, valign, if valign is Some { mid + 2 } else { mid })
}

/// The number that a run of digits stands for, if it fits.
pub open spec fn number_value(digits: Seq<char>) -> Option<usize> {
    if digits.len() > 0 && digits_value(digits) <= usize::MAX {
        Some(digits_value(digits) as usize)
    } else {
        None
    }
}

/// The digits at `pos` as a number, and the position behind them.
pub open spec fn number_spec(s: Seq<char>, pos: int) -> (Option<usize>, int) {
    let end = digits_end(s, pos);
    (number_value(s.subrange(pos, end)), end)
}

/// A dot and digits at `pos` as a number, and the position behind them. A dot
/// without digits is left where it is.
pub open spec fn rowspan_spec(s: Seq<char>, pos: int) -> (Option<usize>, int) {
    if char_at(s, pos) == Some('.') && digits_end(s, pos + 1) > pos + 1 {
        number_spec(s, pos + 1)
    } else {
        (None, pos)
    }
}

/// The first of two readings that is there.
pub open spec fn either<T>(a: Option<T>, b: Option<T>) -> Option<T> {
    if a is Some {
        a
    } else {
        b
    }
}

/// A number that was read, or 1.
pub open spec fn or_one(n: Option<usize>) -> usize {
    match n {
        Some(k) => k,
        None => 1,
    }
}

/// The specifier of a cell that is repeated, or else spanned.
pub open spec fn span_spec(
    repeated: bool,
    colspan: Option<usize>,
    rowspan: Option<usize>,
    halign: Option<HorizontalAlignment>,
    valign: Option<VerticalAlignment>,
    style: Option<ColumnStyle>,
) -> CellSpecifier {
    if repeated {
        CellSpecifier {
            colspan: 1,
            rowspan: 1,
            halign,
            valign,
            style,
            is_duplication: true,
            duplication_count: or_one(colspan),
        }
    } else {
        CellSpecifier {
            colspan: or_one(colspan),
            rowspan: or_one(rowspan),
            halign,
            valign,
            style,
            is_duplication: false,
            duplication_count: 1,
        }
    }
}

/// What the parts that were read make: a span or duplication where an operator
/// follows a number, else an alignment, else a style alone. Where none of these
/// stands there, nothing is read.
pub open spec fn build_spec(
    s: Seq<char>,
    pos: int,
    align_end: int,
    colspan: Option<usize>,
    rowspan: Option<usize>,
    halign: Option<HorizontalAlignment>,
    valign: Option<VerticalAlignment>,
) -> (CellSpecifier, int) {
    let op = char_at(s, pos);
    if (op == Some('+') || op == Some('*')) && (colspan is Some || rowspan is Some) {
        let (h, v, after) = align_spec(s, pos + 1);
        let style = style_at(s, after);
        let spec = span_spec(
            op == Some('*'),
            colspan,
            rowspan,
            either(halign, h),
            either(valign, v),
            style,
        );
        (spec, past(style, after))
    } else if halign is Some || valign is Some {
        let style = style_at(s, align_end);
        (styled(halign, valign, style), past(style, align_end))
    } else {
        let style = style_at(s, pos);
        if style is Some {
            (styled(None, None, style), pos + 1)
        } else {
            (plain_spec(), 0)
        }
    }
}

/// The specifier at the start of `s`, read as the text before a separator, and
/// the number of characters that it takes.
pub open spec fn first_part_spec(s: Seq<char>) -> (CellSpecifier, int) {
    let (halign, valign, align_end) = align_spec(s, 0);
    let (colspan, colspan_end) = number_spec(s, align_end);
    let (rowspan, rowspan_end) = rowspan_spec(s, colspan_end);
    build_spec(s, rowspan_end, align_end, colspan, rowspan, halign, valign)
}

/// The specifier at the start of `s` and the number of characters that it takes.
/// The text of a cell has none.
pub open spec fn parse_spec(s: Seq<char>, mode: ParseContext) -> (CellSpecifier, int) {
    match mode {
        ParseContext::FirstPart => first_part_spec(s),
        ParseContext::InlineContent => (plain_spec(), 0),
    }
}

/// Whether all of `s` is one specifier.
pub open spec fn is_full_spec(s: Seq<char>) -> bool {
    s.len() > 0 && first_part_spec(s).1 == s.len()
}

// ---------------------------------------------------------------------------
// Facts about the grammar.
// ---------------------------------------------------------------------------

/// A character that a specifier can hold.
pub open spec fn is_spec_char(c: char) -> bool {
    is_digit(c) || c == '.' || c == '+' || c == '*' || halign_of(c) is Some || style_of(c) is Some
}

/// A specifier stays within its text and is made of specifier characters, each
/// of one byte; a repeated cell is not spanned, and a spanned one not repeated.
pub proof fn lemma_first_part_spec(s: Seq<char>)
    ensures
        0 <= first_part_spec(s).1 <= s.len(),
        forall|k: int| 0 <= k < first_part_spec(s).1 ==> is_spec_char(#[trigger] s[k]),
        blen(s.take(first_part_spec(s).1)) == first_part_spec(s).1,
        first_part_spec(s).0.colspan == 1 || first_part_spec(s).0.duplication_count == 1,
{
    let (halign, valign, align_end) = align_spec(s, 0);
    lemma_digits_end(s, align_end);
    let (colspan, colspan_end) = number_spec(s, align_end);
    if char_at(s, colspan_end) == Some('.') {
        lemma_digits_end(s, colspan_end + 1);
    }
    let n = first_part_spec(s).1;
    assert forall|k: int| 0 <= k < n implies is_spec_char(#[trigger] s[k]) by {
        if k < align_end {
        } else if k < colspan_end {
            assert(is_digit(s[k]));
        }
    }
    assert forall|k: int| 0 <= k < s.take(n).len() implies s.take(n)[k] <= '\u{7F}' by {
        assert(is_spec_char(s[k]));
    }
    lemma_blen_ascii(s.take(n));
}

/// Digits behind other text end where they end on their own.
proof fn lemma_digits_end_behind(pre: Seq<char>, s: Seq<char>, i: int)
    requires
        0 <= i <= s.len(),
    ensures
        digits_end(pre + s, pre.len() + i) == pre.len() + digits_end(s, i),
    decreases s.len() - i,
{
    if i < s.len() && is_digit(s[i]) {
        lemma_digits_end_behind(pre, s, i + 1);
    }
}

/// Digits before other text end where they end on their own, if the text does not
/// begin with a digit.
proof fn lemma_digits_end_before(s: Seq<char>, post: Seq<char>, i: int)
    requires
        0 <= i <= s.len(),
        post.len() > 0 ==> !is_digit(post[0]),
    ensures
        digits_end(s + post, i) == digits_end(s, i),
    decreases s.len() - i,
{
    if i < s.len() && is_digit(s[i]) {
        lemma_digits_end_before(s, post, i + 1);
    }
}

/// Text that is an alignment, horizontal, vertical or both.
pub open spec fn is_alignment(a: Seq<char>) -> bool {
    a.len() > 0 && align_spec(a, 0).2 == a.len()
}

/// Text that is the numbers of a span or a duplication.
pub open spec fn is_span_numbers(n: Seq<char>) -> bool {
    let (colspan, mid) = number_spec(n, 0);
    let (rowspan, end) = rowspan_spec(n, mid);
    end == n.len() && (colspan is Some || rowspan is Some)
}

/// Text that is a style letter, or nothing.
pub open spec fn is_style_text(t: Seq<char>) -> bool {
    t.len() == 0 || (t.len() == 1 && style_of(t[0]) is Some)
}

/// What the numbers of a span read behind `pre` and before an operator.
proof fn lemma_span_numbers(pre: Seq<char>, n: Seq<char>, post: Seq<char>)
    requires
        is_span_numbers(n),
        post.len() > 0,
        post[0] == '+' || post[0] == '*',
    ensures
        ({
            let s = pre + n + post;
            let (colspan, mid) = number_spec(n, 0);
            let (rowspan, end) = rowspan_spec(n, mid);
            &&& number_spec(s, pre.len() as int) == (colspan, pre.len() + mid)
            &&& rowspan_spec(s, pre.len() + mid) == (rowspan, (pre.len() + n.len()) as int)
        }),
{
    let s = pre + n + post;
    let tail = n + post;
    assert(s =~= pre + tail);
    let (colspan, mid) = number_spec(n, 0);
    lemma_digits_end(n, 0);
    lemma_digits_end_behind(pre, tail, 0);
    lemma_digits_end_before(n, post, 0);
    assert(s.subrange(pre.len() as int, pre.len() + mid) =~= n.subrange(0, mid));
    if mid < n.len() {
        assert(n[mid] == '.');
        lemma_digits_end(n, mid + 1);
        lemma_digits_end_behind(pre, tail, mid + 1);
        lemma_digits_end_before(n, post, mid + 1);
        let end = digits_end(n, mid + 1);
        assert(s.subrange(pre.len() + mid + 1, pre.len() + end) =~= n.subrange(mid + 1, end));
        assert(s[pre.len() + mid] == '.');
    } else {
        assert(s[pre.len() + mid] == post[0]);
    }
}

/// What an alignment reads behind `pre` and before `post`.
proof fn lemma_alignment(pre: Seq<char>, a: Seq<char>, post: Seq<char>)
    requires
        is_alignment(a),
        post.len() > 0 ==> halign_of(post[0]) is None,
        post.len() > 1 && post[0] == '.' ==> valign_of(post[1]) is None,
    ensures
        align_spec(pre + a + post, pre.len() as int) == (
            align_spec(a, 0).0,
            align_spec(a, 0).1,
            (pre.len() + a.len()) as int,
        ),
{
    let s = pre + a + post;
    assert(forall|k: int| 0 <= k < a.len() ==> s[pre.len() + k] == a[k]);
    assert(forall|k: int| 0 <= k < post.len() ==> s[pre.len() + a.len() + k] == post[k]);
}

/// The front of the numbers of a span is no alignment.
proof fn lemma_span_front(span: Seq<char>)
    requires
        is_span_numbers(span),
    ensures
        span.len() > 0,
        halign_of(span[0]) is None,
        !is_digit(span[0]) ==> span[0] == '.' && span.len() > 1 && is_digit(span[1]),
{
    lemma_digits_end(span, 0);
    let (_, mid) = number_spec(span, 0);
    if mid < span.len() {
        lemma_digits_end(span, mid + 1);
    }
}

/// What a specifier with its alignment before the span makes.
proof fn lemma_alignment_first(align: Seq<char>, span: Seq<char>, op: char, style: Seq<char>)
    requires
        is_alignment(align),
        is_span_numbers(span),
        op == '+' || op == '*',
        is_style_text(style),
    ensures
        ({
            let s = align + span + seq![op] + style;
            let (colspan, mid) = number_spec(span, 0);
            let (halign, valign, _) = align_spec(align, 0);
            first_part_spec(s) == (
                span_spec(
                    op == '*',
                    colspan,
                    rowspan_spec(span, mid).0,
                    halign,
                    valign,
                    style_at(style, 0),
                ),
                s.len() as int,
            )
        }),
{
    let none = Seq::<char>::empty();
    let s = align + span + seq![op] + style;
    let op_style = seq![op] + style;
    let rest = span + op_style;
    lemma_span_front(span);
    assert(rest[0] == span[0]);
    if span[0] == '.' {
        assert(rest[1] == span[1]);
    }
    lemma_alignment(none, align, rest);
    assert(none + align + rest =~= s);
    lemma_span_numbers(align, span, op_style);
    assert(align + span + op_style =~= s);
    let p = (align.len() + span.len()) as int;
    assert(s[p] == op);
    assert(s.len() == p + 1 + style.len());
    if style.len() > 0 {
        assert(s[p + 1] == style[0]);
    }
    assert(align_spec(s, p + 1) == (
        None::<HorizontalAlignment>,
        None::<VerticalAlignment>,
        p + 1,
    ));
}

/// What a specifier with its alignment behind the operator of the span makes.
proof fn lemma_alignment_behind(align: Seq<char>, span: Seq<char>, op: char, style: Seq<char>)
    requires
        is_alignment(align),
        is_span_numbers(span),
        op == '+' || op == '*',
        is_style_text(style),
    ensures
        ({
            let s = span + seq![op] + align + style;
            let (colspan, mid) = number_spec(span, 0);
            let (halign, valign, _) = align_spec(align, 0);
            first_part_spec(s) == (
                span_spec(
                    op == '*',
                    colspan,
                    rowspan_spec(span, mid).0,
                    halign,
                    valign,
                    style_at(style, 0),
                ),
                s.len() as int,
            )
        }),
{
    let none = Seq::<char>::empty();
    let s = span + seq![op] + align + style;
    lemma_span_front(span);
    assert(s[0] == span[0]);
    if span[0] == '.' {
        assert(s[1] == span[1]);
    }
    assert(align_spec(s, 0) == (None::<HorizontalAlignment>, None::<VerticalAlignment>, 0int));
    let op_align = seq![op] + align + style;
    assert(none + span + op_align =~= s);
    lemma_span_numbers(none, span, op_align);
    let pre = span + seq![op];
    assert(pre + align + style =~= s);
    lemma_alignment(pre, align, style);
    assert(s[span.len() as int] == op);
    let q = (pre.len() + align.len()) as int;
    assert(s.len() == q + style.len());
    if style.len() > 0 {
        assert(s[q] == style[0]);
    }
}

/// The alignment may stand before the span or behind its operator: both orders
/// make the same specifier of all the text.
pub proof fn law_alignment_on_either_side(
    align: Seq<char>,
    span: Seq<char>,
    op: char,
    style: Seq<char>,
)
    requires
        is_alignment(align),
        is_span_numbers(span),
        op == '+' || op == '*',
        is_style_text(style),
    ensures
        first_part_spec(align + span + seq![op] + style).0 == first_part_spec(
            span + seq![op] + align + style,
        ).0,
        is_full_spec(align + span + seq![op] + style),
        is_full_spec(span + seq![op] + align + style),
{
    lemma_alignment_first(align, span, op, style);
    lemma_alignment_behind(align, span, op, style);
}

/// What a letter behind a specifier without a style makes of it.
proof fn lemma_letter_behind(front: Seq<char>, c: char)
    requires
        first_part_spec(front).1 == front.len(),
        first_part_spec(front).0.style is None,
        'a' <= c <= 'z',
    ensures
        style_of(c) is Some || front.len() > 0 ==> first_part_spec(front + seq![c]) == (
            (CellSpecifier { style: style_of(c), ..first_part_spec(front).0 }),
            past(style_of(c), front.len() as int),
        ),
        style_of(c) is None && front.len() == 0 ==> first_part_spec(front + seq![c]) == (
            plain_spec(),
            0int,
        ),
{
    let s = front + seq![c];
    let n = front.len() as int;
    assert(forall|k: int| 0 <= k < n ==> s[k] == front[k]);
    assert(s[n] == c);
    let (halign, valign, align_end) = align_spec(front, 0);
    assert(align_spec(s, 0) == (halign, valign, align_end));
    lemma_digits_end(front, align_end);
    lemma_digits_end_before(front, seq![c], align_end);
    let (colspan, colspan_end) = number_spec(front, align_end);
    assert(s.subrange(align_end, colspan_end) =~= front.subrange(align_end, colspan_end));
    if colspan_end < n && front[colspan_end] == '.' {
        lemma_digits_end(front, colspan_end + 1);
        lemma_digits_end_before(front, seq![c], colspan_end + 1);
        let end = digits_end(front, colspan_end + 1);
        assert(s.subrange(colspan_end + 1, end) =~= front.subrange(colspan_end + 1, end));
    }
    let (rowspan, rowspan_end) = rowspan_spec(front, colspan_end);
    assert(rowspan_spec(s, colspan_end) == (rowspan, rowspan_end));
    let op = char_at(front, rowspan_end);
    if (op == Some('+') || op == Some('*')) && (colspan is Some || rowspan is Some) {
        assert(align_spec(s, rowspan_end + 1) == align_spec(front, rowspan_end + 1));
    }
}

/// A style letter behind a specifier without a style, or alone, is read, and gives the
/// cell the style that the letter stands for; the rest of the specifier stays.
pub proof fn law_style_letters(front: Seq<char>)
    requires
        first_part_spec(front).1 == front.len(),
        first_part_spec(front).0.style is None,
    ensures
        first_part_spec(front + seq!['a']) == (
            (CellSpecifier { style: Some(ColumnStyle::AsciiDoc), ..first_part_spec(front).0 }),
            (front.len() + 1) as int,
        ),
        first_part_spec(front + seq!['d']) == (
            (CellSpecifier { style: Some(ColumnStyle::Default), ..first_part_spec(front).0 }),
            (front.len() + 1) as int,
        ),
        first_part_spec(front + seq!['e']) == (
            (CellSpecifier { style: Some(ColumnStyle::Emphasis), ..first_part_spec(front).0 }),
            (front.len() + 1) as int,
        ),
        first_part_spec(front + seq!['h']) == (
            (CellSpecifier { style: Some(ColumnStyle::Header), ..first_part_spec(front).0 }),
            (front.len() + 1) as int,
        ),
        first_part_spec(front + seq!['l']) == (
            (CellSpecifier { style: Some(ColumnStyle::Literal), ..first_part_spec(front).0 }),
            (front.len() + 1) as int,
        ),
        first_part_spec(front + seq!['m']) == (
            (CellSpecifier { style: Some(ColumnStyle::Monospace), ..first_part_spec(front).0 }),
            (front.len() + 1) as int,
        ),
        first_part_spec(front + seq!['s']) == (
            (CellSpecifier { style: Some(ColumnStyle::Strong), ..first_part_spec(front).0 }),
            (front.len() + 1) as int,
        ),
        style_of('m') == Some(ColumnStyle::Monospace),
        style_of('l') == Some(ColumnStyle::Literal),
{
    lemma_letter_behind(front, 'a');
    lemma_letter_behind(front, 'd');
    lemma_letter_behind(front, 'e');
    lemma_letter_behind(front, 'h');
    lemma_letter_behind(front, 'l');
    lemma_letter_behind(front, 'm');
    lemma_letter_behind(front, 's');
}

/// No other letter is read behind a specifier.
pub proof fn law_other_letters(front: Seq<char>, c: char)
    requires
        first_part_spec(front).1 == front.len(),
        first_part_spec(front).0.style is None,
        'a' <= c <= 'z',
        c != 'a' && c != 'd' && c != 'e' && c != 'h' && c != 'l' && c != 'm' && c != 's',
    ensures
        first_part_spec(front + seq![c]) == first_part_spec(front),
{
    lemma_letter_behind(front, c);
    if front.len() == 0 {
        lemma_first_part_spec(front);
    }
}

/// An alignment character at the front of a specifier aligns the cell, whatever follows: `<`
/// to the left, `^` to the middle and `>` to the right.
pub proof fn law_horizontal_alignment(c: char, rest: Seq<char>)
    requires
        c == '<' || c == '^' || c == '>',
    ensures
        first_part_spec(seq![c] + rest).0.halign == Some(
            if c == '<' {
                HorizontalAlignment::Left
            } else if c == '^' {
                HorizontalAlignment::Center
            } else {
                HorizontalAlignment::Right
            },
        ),
        first_part_spec(seq![c] + rest).1 >= 1,
{
    lemma_aligned(seq![c], rest);
}

/// Behind a dot it aligns the cell up and down: `<` to the top, `^` to the middle and `>` to
/// the bottom.
pub proof fn law_vertical_alignment(c: char, rest: Seq<char>)
    requires
        c == '<' || c == '^' || c == '>',
    ensures
        first_part_spec(seq!['.', c] + rest).0.valign == Some(
            if c == '<' {
                VerticalAlignment::Top
            } else if c == '^' {
                VerticalAlignment::Middle
            } else {
                VerticalAlignment::Bottom
            },
        ),
        first_part_spec(seq!['.', c] + rest).1 >= 2,
{
    lemma_aligned(seq!['.', c], rest);
}

/// Both alignments may be given, the horizontal one first.
pub proof fn law_both_alignments(h: char, v: char, rest: Seq<char>)
    requires
        h == '<' || h == '^' || h == '>',
        v == '<' || v == '^' || v == '>',
    ensures
        ({
            let (spec, n) = first_part_spec(seq![h, '.', v] + rest);
            &&& n >= 3
            &&& spec.halign == Some(
                if h == '<' {
                    HorizontalAlignment::Left
                } else if h == '^' {
                    HorizontalAlignment::Center
                } else {
                    HorizontalAlignment::Right
                },
            )
            &&& spec.valign == Some(
                if v == '<' {
                    VerticalAlignment::Top
                } else if v == '^' {
                    VerticalAlignment::Middle
                } else {
                    VerticalAlignment::Bottom
                },
            )
        }),
{
    lemma_aligned(seq![h, '.', v], rest);
}

/// An alignment at the front is that of the cell.
proof fn lemma_aligned(align: Seq<char>, rest: Seq<char>)
    requires
        1 <= align.len() <= 3,
        align_spec(align, 0).2 == align.len(),
    ensures
        align_spec(align, 0).0 is Some ==> first_part_spec(align + rest).0.halign == align_spec(
            align,
            0,
        ).0,
        align_spec(align, 0).1 is Some ==> first_part_spec(align + rest).0.valign == align_spec(
            align,
            0,
        ).1,
        first_part_spec(align + rest).1 >= align.len(),
{
    let s = align + rest;
    assert(forall|k: int| 0 <= k < align.len() ==> s[k] == align[k]);
    let (halign, valign, align_end) = align_spec(s, 0);
    assert(align_end >= align.len());
    lemma_digits_end(s, align_end);
    let (colspan, colspan_end) = number_spec(s, align_end);
    if colspan_end < s.len() {
        lemma_digits_end(s, colspan_end + 1);
    }
}

/// A number before `+` is the columns that a cell spans, and one behind a dot the rows;
/// a number before `*` is how often the cell is repeated. What follows changes none
/// of these.
pub proof fn law_span_numbers(digits: Seq<char>, rest: Seq<char>)
    requires
        digits.len() > 0,
        forall|k: int| 0 <= k < digits.len() ==> is_digit(#[trigger] digits[k]),
        digits_value(digits) <= usize::MAX,
    ensures
        ({
            let spec = first_part_spec(digits + seq!['+'] + rest).0;
            spec.colspan == digits_value(digits) && spec.rowspan == 1 && !spec.is_duplication
                && spec.duplication_count == 1
        }),
        ({
            let spec = first_part_spec(seq!['.'] + digits + seq!['+'] + rest).0;
            spec.colspan == 1 && spec.rowspan == digits_value(digits) && !spec.is_duplication
                && spec.duplication_count == 1
        }),
        ({
            let spec = first_part_spec(digits + seq!['*'] + rest).0;
            spec.colspan == 1 && spec.rowspan == 1 && spec.is_duplication && spec.duplication_count
                == digits_value(digits)
        }),
        first_part_spec(digits + seq!['+'] + rest).1 > digits.len(),
        first_part_spec(seq!['.'] + digits + seq!['+'] + rest).1 > digits.len() + 1,
        first_part_spec(digits + seq!['*'] + rest).1 > digits.len(),
{
    let n = digits.len() as int;
    let none = Seq::<char>::empty();
    lemma_all_digits(digits, 0);
    assert(digits.subrange(0, n) =~= digits);
    assert(is_digit(digits[0]));
    let plus = seq!['+'] + rest;
    let star = seq!['*'] + rest;
    assert(is_span_numbers(digits));
    let wide = digits + seq!['+'] + rest;
    lemma_span_numbers(none, digits, plus);
    assert(none + digits + plus =~= wide);
    assert(wide[0] == digits[0] && wide[n] == '+');
    assert(align_spec(wide, 0) == (None::<HorizontalAlignment>, None::<VerticalAlignment>, 0int));
    let repeated = digits + seq!['*'] + rest;
    lemma_span_numbers(none, digits, star);
    assert(none + digits + star =~= repeated);
    assert(repeated[0] == digits[0] && repeated[n] == '*');
    assert(align_spec(repeated, 0) == (
        None::<HorizontalAlignment>,
        None::<VerticalAlignment>,
        0int,
    ));
    let rows = seq!['.'] + digits;
    assert(rows[0] == '.');
    assert(forall|k: int| 0 <= k < n ==> rows[k + 1] == digits[k]);
    lemma_digits_end_behind(seq!['.'], digits, 0);
    assert(rows.subrange(1, n + 1) =~= digits);
    assert(digits_end(rows, 0) == 0);
    assert(is_span_numbers(rows));
    let high = seq!['.'] + digits + seq!['+'] + rest;
    lemma_span_numbers(none, rows, plus);
    assert(none + rows + plus =~= high);
    assert(high[0] == '.' && high[1] == digits[0] && high[n + 1] == '+');
    assert(align_spec(high, 0) == (None::<HorizontalAlignment>, None::<VerticalAlignment>, 0int));
}

proof fn lemma_all_digits(s: Seq<char>, from: int)
    requires
        0 <= from <= s.len(),
        forall|k: int| 0 <= k < s.len() ==> is_digit(#[trigger] s[k]),
    ensures
        digits_end(s, from) == s.len(),
    decreases s.len() - from,
{
    if from < s.len() {
        assert(is_digit(s[from]));
        lemma_all_digits(s, from + 1);
    }
}

/// Text that begins with none of the characters of a specifier has none, and in the text
/// of a cell none is read at all.
pub proof fn law_no_specifier(s: Seq<char>)
    ensures
        s.len() > 0 && !is_digit(s[0]) && s[0] != '.' && s[0] != '<' && s[0] != '^' && s[0] != '>'
            && s[0] != 'a' && s[0] != 'd' && s[0] != 'e' && s[0] != 'h' && s[0] != 'l' && s[0]
            != 'm' && s[0] != 's' ==> first_part_spec(s) == (styled(None, None, None), 0int),
        parse_spec(s, ParseContext::InlineContent) == (styled(None, None, None), 0int),
        styled(None, None, None).colspan == 1 && styled(None, None, None).rowspan == 1,
        styled(None, None, None).duplication_count == 1,
{
}

/// Two numbers with a dot between them, before `+`, are the columns and the rows that a cell
/// spans.
pub proof fn law_span_both_ways(columns: Seq<char>, rows: Seq<char>, rest: Seq<char>)
    requires
        columns.len() > 0 && rows.len() > 0,
        forall|k: int| 0 <= k < columns.len() ==> is_digit(#[trigger] columns[k]),
        forall|k: int| 0 <= k < rows.len() ==> is_digit(#[trigger] rows[k]),
        digits_value(columns) <= usize::MAX,
        digits_value(rows) <= usize::MAX,
    ensures
        ({
            let spec = first_part_spec(columns + seq!['.'] + rows + seq!['+'] + rest).0;
            spec.colspan == digits_value(columns) && spec.rowspan == digits_value(rows)
                && !spec.is_duplication && spec.duplication_count == 1
        }),
{
    let n = columns.len() as int;
    let m = rows.len() as int;
    let none = Seq::<char>::empty();
    let both = columns + seq!['.'] + rows;
    let behind = seq!['.'] + rows;
    let plus = seq!['+'] + rest;
    lemma_all_digits(columns, 0);
    lemma_all_digits(rows, 0);
    assert(both =~= columns + behind);
    lemma_digits_end_before(columns, behind, 0);
    assert(both.subrange(0, n) =~= columns);
    assert(both[n] == '.');
    assert(both =~= (columns + seq!['.']) + rows);
    lemma_digits_end_behind(columns + seq!['.'], rows, 0);
    assert(both.subrange(n + 1, n + 1 + m) =~= rows);
    assert(is_span_numbers(both));
    let all = columns + seq!['.'] + rows + seq!['+'] + rest;
    lemma_span_numbers(none, both, plus);
    assert(none + both + plus =~= all);
    assert(is_digit(columns[0]));
    assert(all[0] == columns[0] && all[n + 1 + m] == '+');
    assert(align_spec(all, 0) == (None::<HorizontalAlignment>, None::<VerticalAlignment>, 0int));
}

/// A number without an operator behind it is no specifier.
pub proof fn law_numbers_alone(digits: Seq<char>)
    requires
        forall|k: int| 0 <= k < digits.len() ==> is_digit(#[trigger] digits[k]),
    ensures
        first_part_spec(digits) == (styled(None, None, None), 0int),
        !is_full_spec(digits),
{
    lemma_all_digits(digits, 0);
    if digits.len() > 0 {
        assert(is_digit(digits[0]));
    }
    assert(align_spec(digits, 0) == (
        None::<HorizontalAlignment>,
        None::<VerticalAlignment>,
        0int,
    ));
}

// ---------------------------------------------------------------------------
// Executable operations.
// ---------------------------------------------------------------------------

impl Default for CellSpecifier {
    /// The specifier of a cell that has none.
    fn default() -> (r: CellSpecifier)
        ensures
            r == plain_spec(),
    {
        CellSpecifier {
            colspan: 1,
            rowspan: 1,
            halign: None,
            valign: None,
            style: None,
            is_duplication: false,
            duplication_count: 1,
        }
    }
}

/// The style that a letter stands for.
pub fn parse_style_letter(c: char) -> (r: Option<ColumnStyle>)
    ensures
        r == style_of(c),
{
    match c {
        'a' => Some(ColumnStyle::AsciiDoc),
        'd' => Some(ColumnStyle::Default),
        'e' => Some(ColumnStyle::Emphasis),
        'h' => Some(ColumnStyle::Header),
        'l' => Some(ColumnStyle::Literal),
        'm' => Some(ColumnStyle::Monospace),
        's' => Some(ColumnStyle::Strong),
        _ => None,
    }
}

fn style_letter_at(cs: &[char], pos: usize) -> (r: Option<ColumnStyle>)
    ensures
        r == style_at(cs@, pos as int),
        r is Some ==> pos < cs@.len(),
{
    if pos < cs.len() {
        parse_style_letter(cs[pos])
    } else {
        None
    }
}

fn skip_digits(cs: &[char], pos: usize) -> (r: usize)
    requires
        pos <= cs@.len(),
    ensures
        r == digits_end(cs@, pos as int),
        pos <= r <= cs@.len(),
        forall|k: int| pos <= k < r ==> is_digit(cs@[k]),
{
    let mut i: usize = pos;
    while i < cs.len() && '0' <= cs[i] && cs[i] <= '9'
        invariant
            pos <= i <= cs@.len(),
            digits_end(cs@, pos as int) == digits_end(cs@, i as int),
            forall|k: int| pos <= k < i ==> is_digit(cs@[k]),
        decreases cs.len() - i,
    {
        i += 1;
    }
    i
}

impl CellSpecifier {
    /// Read a specifier from the start of `content`. Gives the specifier and the
    /// number of bytes that it takes; 0 where none was read. A cell is spanned or
    /// repeated, never both.
    #[must_use]
    pub fn parse(content: &str, mode: ParseContext) -> (r: (CellSpecifier, usize))
        ensures
            (r.0, r.1 as int) == parse_spec(content@, mode),
            r.1 <= content@.len(),
            r.1 == blen(content@.take(r.1 as int)),
            r.0.is_duplication ==> r.0.colspan == 1 && r.0.rowspan == 1,
            !r.0.is_duplication ==> r.0.duplication_count == 1,
    {
        let cs = chars_of(content);
        proof {
            lemma_first_part_spec(content@);
            assert(content@.take(0) =~= Seq::empty());
            lemma_blen_ascii(content@.take(0));
        }
        let (halign, valign, align_end) = Self::parse_alignments(&cs, 0);
        let (colspan, colspan_end) = Self::parse_number(&cs, align_end);
        let (rowspan, rowspan_end) = Self::parse_rowspan(&cs, colspan_end);
        Self::build_result(
            &cs,
            rowspan_end,
            align_end,
            colspan,
            rowspan,
            halign,
            valign,
            mode,
        )
    }

    /// Read at most one horizontal and at most one vertical alignment at `pos`.
    pub fn parse_alignments(cs: &[char], pos: usize) -> (r: (
        Option<HorizontalAlignment>,
        Option<VerticalAlignment>,
        usize,
    ))
        requires
            pos <= cs@.len(),
        ensures
            (r.0, r.1, r.2 as int) == align_spec(cs@, pos as int),
            pos <= r.2 <= cs@.len(),
    {
        let mut at: usize = pos;
        let mut halign: Option<HorizontalAlignment> = None;
        let mut valign: Option<VerticalAlignment> = None;
        if at < cs.len() {
            halign = match cs[at] {
                '<' => Some(HorizontalAlignment::Left),
                '^' => Some(HorizontalAlignment::Center),
                '>' => Some(HorizontalAlignment::Right),
                _ => None,
            };
            if halign.is_some() {
                at += 1;
            }
        }
        if at < cs.len() && cs[at] == '.' && at + 1 < cs.len() {
            valign = match cs[at + 1] {
                '<' => Some(VerticalAlignment::Top),
                '^' => Some(VerticalAlignment::Middle),
                '>' => Some(VerticalAlignment::Bottom),
                _ => None,
            };
            if valign.is_some() {
                at += 2;
            }
        }
        (halign, valign, at)
    }

    /// Read the digits at `pos` as a number.
    pub fn parse_number(cs: &[char], pos: usize) -> (r: (Option<usize>, usize))
        requires
            pos <= cs@.len(),
        ensures
            (r.0, r.1 as int) == number_spec(cs@, pos as int),
            pos <= r.1 <= cs@.len(),
    {
        let end = skip_digits(cs, pos);
        if end > pos {
            (parse_number_at(cs, pos, end), end)
        } else {
            (None, end)
        }
    }

    /// Read a dot and digits at `pos` as a number.
    pub fn parse_rowspan(cs: &[char], pos: usize) -> (r: (Option<usize>, usize))
        requires
            pos <= cs@.len(),
        ensures
            (r.0, r.1 as int) == rowspan_spec(cs@, pos as int),
            pos <= r.1 <= cs@.len(),
    {
        if pos < cs.len() && cs[pos] == '.' {
            let (value, end) = Self::parse_number(cs, pos + 1);
            if end > pos + 1 {
                return (value, end);
            }
        }
        (None, pos)
    }

    /// Put together what was read, by what stands at `pos`.
    pub fn build_result(
        cs: &[char],
        pos: usize,
        align_end: usize,
        colspan: Option<usize>,
        rowspan: Option<usize>,
        halign: Option<HorizontalAlignment>,
        valign: Option<VerticalAlignment>,
        context: ParseContext,
    ) -> (r: (CellSpecifier, usize))
        requires
            pos <= cs@.len(),
            align_end <= cs@.len(),
        ensures
            (r.0, r.1 as int) == (match context {
                ParseContext::FirstPart => build_spec(
                    cs@,
                    pos as int,
                    align_end as int,
                    colspan,
                    rowspan,
                    halign,
                    valign,
                ),
                ParseContext::InlineContent => (plain_spec(), 0int),
            }),
            r.1 <= cs@.len(),
    {
        let has_span_or_dup = colspan.is_some() || rowspan.is_some();
        let is_duplication = pos < cs.len() && cs[pos] == '*';
        let is_span = pos < cs.len() && cs[pos] == '+';
        if (is_span || is_duplication) && has_span_or_dup && context == ParseContext::FirstPart {
            let (h, v, after) = Self::parse_alignments(cs, pos + 1);
            let halign = if halign.is_some() {
                halign
            } else {
                h
            };
            let valign = if valign.is_some() {
                valign
            } else {
                v
            };
            let style = style_letter_at(cs, after);
            let end: usize = if style.is_some() {
                after + 1
            } else {
                after
            };
            let spec = if is_duplication {
                CellSpecifier {
                    colspan: 1,
                    rowspan: 1,
                    halign,
                    valign,
                    style,
                    is_duplication: true,
                    duplication_count: colspan.unwrap_or(1),
                }
            } else {
                CellSpecifier {
                    colspan: colspan.unwrap_or(1),
                    rowspan: rowspan.unwrap_or(1),
                    halign,
                    valign,
                    style,
                    is_duplication: false,
                    duplication_count: 1,
                }
            };
            (spec, end)
        } else if (halign.is_some() || valign.is_some()) && context == ParseContext::FirstPart {
            // Digits without an operator belong to no specifier: go on from
            // behind the alignment.
            let style = style_letter_at(cs, align_end);
            let end: usize = if style.is_some() {
                align_end + 1
            } else {
                align_end
            };
            (
                CellSpecifier {
                    colspan: 1,
                    rowspan: 1,
                    halign,
                    valign,
                    style,
                    is_duplication: false,
                    duplication_count: 1,
                },
                end,
            )
        } else if context == ParseContext::FirstPart {
            let style = style_letter_at(cs, pos);
            if style.is_some() {
                (
                    CellSpecifier {
                        colspan: 1,
                        rowspan: 1,
                        halign: None,
                        valign: None,
                        style,
                        is_duplication: false,
                        duplication_count: 1,
                    },
                    pos + 1,
                )
            } else {
                (CellSpecifier::default(), 0)
            }
        } else {
            (CellSpecifier::default(), 0)
        }
    }
}

/// Whether all of `s` is one specifier.
pub fn full_spec(s: &str) -> (r: Option<CellSpecifier>)
    ensures
        r is Some <==> is_full_spec(s@),
        r is Some ==> r == Some(first_part_spec(s@).0),
{
    let n: usize = s.unicode_len();
    let (spec, len) = CellSpecifier::parse(s, ParseContext::FirstPart);
    if len > 0 && len == n {
        Some(spec)
    } else {
        None
    }
}

} // verus!

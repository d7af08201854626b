//! The cell separator of a table: where it stands in a line, and how a line is
//! split at it.
//!
//! A separator of one character can be escaped with a backslash; a longer one
//! is a literal string and cannot.

use crate::table::specifier::CellSpecifier;
use crate::text::{
    blen, byte_len, chars_find, chars_of, contains_spec, lemma_blen_ascii, lemma_blen_concat,
    lemma_blen_split, lemma_blen_subrange, lemma_match_from, match_from, matches_at, string_of,
};
use vstd::prelude::*;
use vstd::string::*;
use vstd::utf8::encode_utf8;

verus! {

/// How a separator is looked for, by the number of its characters.
#[derive(Clone, Copy, Debug)]
pub enum SepKind {
    /// No separator: nothing in a line separates.
    Empty,
    /// One character, which a backslash before it escapes.
    SingleCodepoint(char),
    /// A literal string without escapes.
    MultiCodepoint,
}

/// A separator and the way it is looked for.
#[derive(Clone, Copy, Debug)]
pub struct Separator<'a> {
    pub raw: &'a str,
    pub kind: SepKind,
}

/// The kind of the separator that is written `raw`.
pub open spec fn kind_of(raw: Seq<char>) -> SepKind {
    if raw.len() == 0 {
        SepKind::Empty
    } else if raw.len() == 1 {
        SepKind::SingleCodepoint(raw[0])
    } else {
        SepKind::MultiCodepoint
    }
}

impl<'a> Separator<'a> {
    /// The kind is the one that the text of the separator has.
    pub open spec fn wf(&self) -> bool {
        self.kind == kind_of(self.raw@)
    }

    /// The separator that is written `raw`.
    pub fn new(raw: &'a str) -> (r: Separator<'a>)
        ensures
            r.wf(),
            r.raw@ == raw@,
    {
        let cs = chars_of(raw);
        let kind = if cs.len() == 0 {
            SepKind::Empty
        } else if cs.len() == 1 {
            SepKind::SingleCodepoint(cs[0])
        } else {
            SepKind::MultiCodepoint
        };
        Separator { raw, kind }
    }

    /// The separator as a byte, if it is one ASCII character.
    pub fn single_byte(&self) -> (r: Option<u8>)
        requires
            self.wf(),
        ensures
            r == (if self.raw@.len() == 1 && self.raw@[0] <= '\u{7F}' {
                Some(self.raw@[0] as u8)
            } else {
                None
            }),
    {
        match self.kind {
            SepKind::SingleCodepoint(c) => if c <= '\u{7F}' {
                Some(c as u8)
            } else {
                None
            },
            SepKind::Empty => None,
            SepKind::MultiCodepoint => None,
        }
    }
}

// ---------------------------------------------------------------------------
// Separators of one character.
// ---------------------------------------------------------------------------

/// Whether the character at `i` separates: it is the separator, and no
/// backslash stands before it. A backslash never separates.
pub open spec fn is_sep_at(s: Seq<char>, c: char, i: int) -> bool {
    &&& 0 <= i < s.len()
    &&& s[i] == c
    &&& c != '\\'
    &&& !(i > 0 && s[i - 1] == '\\')
}

/// The first separating position at or after `from`, or the length of `s`.
pub open spec fn next_sep(s: Seq<char>, c: char, from: int) -> int
    decreases s.len() - from,
{
    if from >= s.len() {
        s.len() as int
    } else if is_sep_at(s, c, from) {
        from
    } else {
        next_sep(s, c, from + 1)
    }
}

/// The number of separating positions at or after `from`.
pub open spec fn sep_count(s: Seq<char>, c: char, from: int) -> nat
    decreases s.len() - from,
{
    if from >= s.len() {
        0
    } else {
        (if is_sep_at(s, c, from) {
            1nat
        } else {
            0nat
        }) + sep_count(s, c, from + 1)
    }
}

/// `s` with every escaped separator replaced by the separator.
pub open spec fn unescape(s: Seq<char>, c: char) -> Seq<char>
    decreases s.len(),
{
    if s.len() == 0 {
        Seq::empty()
    } else if s.len() >= 2 && s[0] == '\\' && s[1] == c {
        seq![c] + unescape(s.skip(2), c)
    } else {
        seq![s[0]] + unescape(s.drop_first(), c)
    }
}

/// A part of a line: its text, the byte offset at which it starts, and the cell
/// specifier that was found for it at the end of the part before.
#[verifier::ext_equal]
pub struct PartV {
    pub content: Seq<char>,
    pub start: int,
    pub forced: Option<CellSpecifier>,
}

/// The parts of a line from position `from` on, split at the one-character
/// separator `c`.
pub open spec fn split_escaped_from(s: Seq<char>, c: char, from: int) -> Seq<PartV>
    decreases s.len() - from,
    via split_escaped_from_ends
{
    let i = next_sep(s, c, from);
    let part = PartV {
        content: unescape(s.subrange(from, i), c),
        start: blen(s.take(from)) as int,
        forced: None,
    };
    if from < 0 || i >= s.len() {
        seq![part]
    } else {
        seq![part] + split_escaped_from(s, c, i + 1)
    }
}

#[via_fn]
proof fn split_escaped_from_ends(s: Seq<char>, c: char, from: int) {
    if 0 <= from <= s.len() {
        lemma_next_sep(s, c, from);
    }
}

// ---------------------------------------------------------------------------
// Separators of several characters.
// ---------------------------------------------------------------------------

/// The number of times that `pat` stands in `s` from `from` on, counted from
/// left to right without overlap.
pub open spec fn match_count(s: Seq<char>, pat: Seq<char>, from: int) -> nat
    decreases s.len() + 1 - from,
    via match_count_ends
{
    let i = match_from(s, pat, from);
    if from < 0 || pat.len() == 0 || i > s.len() {
        0
    } else {
        1 + match_count(s, pat, (i + pat.len()) as int)
    }
}

#[via_fn]
proof fn match_count_ends(s: Seq<char>, pat: Seq<char>, from: int) {
    if 0 <= from <= s.len() + 1 {
        lemma_match_from(s, pat, from);
    }
}

/// The parts of a line from position `from` on, split at the string `pat`.
pub open spec fn split_multi_from(s: Seq<char>, pat: Seq<char>, from: int) -> Seq<PartV>
    decreases s.len() + 1 - from,
    via split_multi_from_ends
{
    let i = match_from(s, pat, from);
    let start = blen(s.take(from)) as int;
    if from < 0 || pat.len() == 0 || i > s.len() {
        seq![PartV { content: s.skip(from), start, forced: None }]
    } else {
        seq![PartV { content: s.subrange(from, i), start, forced: None }] + split_multi_from(
            s,
            pat,
            (i + pat.len()) as int,
        )
    }
}

#[via_fn]
proof fn split_multi_from_ends(s: Seq<char>, pat: Seq<char>, from: int) {
    if 0 <= from <= s.len() + 1 {
        lemma_match_from(s, pat, from);
    }
}

// ---------------------------------------------------------------------------
// Any separator.
// ---------------------------------------------------------------------------

/// Whether `line` holds the separator, not counting escaped ones.
pub open spec fn has_sep(line: Seq<char>, sep: Seq<char>) -> bool {
    if sep.len() == 0 {
        false
    } else if sep.len() == 1 {
        exists|i: int| is_sep_at(line, sep[0], i)
    } else {
        contains_spec(line, sep)
    }
}

/// The number of separators in `line`, not counting escaped ones.
pub open spec fn count_seps(line: Seq<char>, sep: Seq<char>) -> nat {
    if sep.len() == 0 {
        0
    } else if sep.len() == 1 {
        sep_count(line, sep[0], 0)
    } else {
        match_count(line, sep, 0)
    }
}

/// The position of the first separator in `line`, if there is one.
pub open spec fn first_sep(line: Seq<char>, sep: Seq<char>) -> Option<int> {
    if sep.len() == 0 {
        None
    } else if sep.len() == 1 {
        let i = next_sep(line, sep[0], 0);
        if i < line.len() {
            Some(i)
        } else {
            None
        }
    } else {
        let i = match_from(line, sep, 0);
        if i <= line.len() {
            Some(i)
        } else {
            None
        }
    }
}

/// The parts that the separator splits `line` into.
pub open spec fn split_spec(line: Seq<char>, sep: Seq<char>) -> Seq<PartV> {
    if sep.len() == 0 {
        seq![PartV { content: line, start: 0, forced: None }]
    } else if sep.len() == 1 {
        split_escaped_from(line, sep[0], 0)
    } else {
        split_multi_from(line, sep, 0)
    }
}

// ---------------------------------------------------------------------------
// Facts about the model.
// ---------------------------------------------------------------------------

/// `next_sep` is the least separating position at or after `from`.
pub proof fn lemma_next_sep(s: Seq<char>, c: char, from: int)
    requires
        0 <= from <= s.len(),
    ensures
        from <= next_sep(s, c, from) <= s.len(),
        next_sep(s, c, from) < s.len() ==> is_sep_at(s, c, next_sep(s, c, from)),
        forall|k: int| from <= k < next_sep(s, c, from) ==> !is_sep_at(s, c, k),
    decreases s.len() - from,
{
    if from < s.len() && !is_sep_at(s, c, from) {
        lemma_next_sep(s, c, from + 1);
    }
}

/// A separator is in the line exactly when the first one is.
pub proof fn lemma_has_sep_first(line: Seq<char>, sep: Seq<char>)
    ensures
        has_sep(line, sep) <==> first_sep(line, sep) is Some,
{
    if sep.len() == 1 {
        let c = sep[0];
        lemma_next_sep(line, c, 0);
        if next_sep(line, c, 0) >= line.len() {
            assert forall|i: int| !is_sep_at(line, c, i) by {
                if 0 <= i < line.len() {
                    assert(!is_sep_at(line, c, i));
                }
            }
        }
    } else if sep.len() > 1 {
        lemma_match_from(line, sep, 0);
        if match_from(line, sep, 0) > line.len() {
            assert forall|i: int| !matches_at(line, sep, i) by {
                if 0 <= i <= line.len() {
                    assert(!matches_at(line, sep, i));
                }
            }
        }
    }
}

/// A line holds a separator exactly when it holds at least one.
pub proof fn lemma_has_sep_count(line: Seq<char>, sep: Seq<char>)
    ensures
        has_sep(line, sep) <==> count_seps(line, sep) > 0,
{
    lemma_has_sep_first(line, sep);
    if sep.len() == 1 {
        lemma_sep_count_next(line, sep[0], 0);
    }
}

proof fn lemma_sep_count_next(s: Seq<char>, c: char, from: int)
    requires
        0 <= from <= s.len(),
    ensures
        next_sep(s, c, from) >= s.len() ==> sep_count(s, c, from) == 0,
        next_sep(s, c, from) < s.len() ==> sep_count(s, c, from) == 1 + sep_count(
            s,
            c,
            next_sep(s, c, from) + 1,
        ),
    decreases s.len() - from,
{
    if from < s.len() && !is_sep_at(s, c, from) {
        lemma_sep_count_next(s, c, from + 1);
    }
}

/// The operations on separators agree: a line holds one exactly when the first
/// one is found, when their count is not zero, and when the line is split; it is
/// split into one part more than it has separators.
pub proof fn law_separators_agree(line: Seq<char>, sep: Seq<char>)
    ensures
        has_sep(line, sep) <==> first_sep(line, sep) is Some,
        has_sep(line, sep) <==> count_seps(line, sep) > 0,
        has_sep(line, sep) <==> split_spec(line, sep).len() > 1,
        split_spec(line, sep).len() == count_seps(line, sep) + 1,
{
    lemma_has_sep_first(line, sep);
    lemma_has_sep_count(line, sep);
    lemma_split_len(line, sep);
}

/// A text in which each `c` is escaped by a backslash.
pub open spec fn escape(s: Seq<char>, c: char) -> Seq<char>
    decreases s.len(),
{
    if s.len() == 0 {
        Seq::empty()
    } else if s[0] == c {
        seq!['\\', c] + escape(s.drop_first(), c)
    } else {
        seq![s[0]] + escape(s.drop_first(), c)
    }
}

/// The backslashes that escape the separators in a text.
pub open spec fn escapes(s: Seq<char>, sep: Seq<char>) -> nat
    decreases s.len(),
{
    if s.len() == 0 || sep.len() != 1 || sep[0] == '\\' {
        0
    } else {
        escapes(s.drop_first(), sep) + (if s[0] == sep[0] {
            1nat
        } else {
            0nat
        })
    }
}

/// A line of texts with the separator `c` between two, in which each `c` of a text
/// is escaped.
pub open spec fn written(texts: Seq<Seq<char>>, c: char) -> Seq<char>
    decreases texts.len(),
{
    if texts.len() == 0 {
        Seq::empty()
    } else if texts.len() == 1 {
        escape(texts[0], c)
    } else {
        escape(texts[0], c) + seq![c] + written(texts.drop_first(), c)
    }
}

/// In an escaped text a backslash stands before each `c`, and `c` does not come
/// first. The text ends in a backslash only where it did so before.
proof fn lemma_escape(s: Seq<char>, c: char)
    requires
        c != '\\',
    ensures
        forall|i: int|
            0 <= i < escape(s, c).len() && #[trigger] escape(s, c)[i] == c ==> i > 0 && escape(
                s,
                c,
            )[i - 1] == '\\',
        s.len() == 0 <==> escape(s, c).len() == 0,
        s.len() > 0 ==> escape(s, c).last() == s.last(),
    decreases s.len(),
{
    if s.len() > 0 {
        let rest = escape(s.drop_first(), c);
        lemma_escape(s.drop_first(), c);
        let all = escape(s, c);
        let front: int = if s[0] == c {
            2
        } else {
            1
        };
        assert forall|i: int| 0 <= i < all.len() && #[trigger] all[i] == c implies i > 0 && all[i
            - 1] == '\\' by {
            if i >= front {
                assert(rest[i - front] == c);
                assert(all[i - 1] == rest[i - front - 1]);
            }
        }
        if s.len() > 1 {
            assert(s.drop_first().last() == s.last());
            assert(all.last() == rest.last());
        }
    }
}

/// Unescaping undoes escaping.
proof fn lemma_unescape_escape(s: Seq<char>, c: char)
    requires
        c != '\\',
    ensures
        unescape(escape(s, c), c) == s,
    decreases s.len(),
{
    if s.len() > 0 {
        let rest = escape(s.drop_first(), c);
        let all = escape(s, c);
        lemma_unescape_escape(s.drop_first(), c);
        lemma_escape(s.drop_first(), c);
        if s[0] == c {
            assert(all.skip(2) =~= rest);
        } else {
            assert(all.drop_first() =~= rest);
            if rest.len() > 0 {
                assert(all[1] == rest[0]);
                assert(rest[0] != c);
            }
        }
        assert(seq![s[0]] + s.drop_first() =~= s);
    }
}

/// Escaping undoes unescaping where every `c` is escaped.
proof fn lemma_escape_unescape(s: Seq<char>, c: char)
    requires
        c != '\\',
        forall|i: int|
            0 <= i < s.len() && #[trigger] s[i] == c ==> i > 0 && s[i - 1] == '\\',
    ensures
        escape(unescape(s, c), c) == s,
    decreases s.len(),
{
    if s.len() > 0 {
        let front: int = if s.len() >= 2 && s[0] == '\\' && s[1] == c {
            2
        } else {
            1
        };
        let rest = s.skip(front);
        assert forall|i: int| 0 <= i < rest.len() && #[trigger] rest[i] == c implies i > 0 && rest[i
            - 1] == '\\' by {
            assert(s[i + front] == c);
        }
        lemma_escape_unescape(rest, c);
        assert(s.drop_first() =~= s.skip(1));
        let text = unescape(s, c);
        assert(text.drop_first() =~= unescape(rest, c));
        assert(escape(text, c) =~= s);
    }
}

/// What stands between two separators is the escaped text of the part.
proof fn lemma_part_is_escaped(s: Seq<char>, c: char, from: int)
    requires
        0 <= from <= s.len(),
        c != '\\',
        from > 0 ==> s[from - 1] != '\\',
    ensures
        ({
            let raw = s.subrange(from, next_sep(s, c, from));
            escape(unescape(raw, c), c) == raw
        }),
{
    lemma_next_sep(s, c, from);
    let raw = s.subrange(from, next_sep(s, c, from));
    assert forall|i: int| 0 <= i < raw.len() && #[trigger] raw[i] == c implies i > 0 && raw[i - 1]
        == '\\' by {
        assert(s[from + i] == c);
        assert(!is_sep_at(s, c, from + i));
    }
    lemma_escape_unescape(raw, c);
}

/// A text is escaped piece by piece.
pub proof fn lemma_escape_concat(a: Seq<char>, b: Seq<char>, c: char)
    ensures
        escape(a + b, c) == escape(a, c) + escape(b, c),
        escapes(a + b, seq![c]) == escapes(a, seq![c]) + escapes(b, seq![c]),
    decreases a.len(),
{
    if a.len() == 0 {
        assert(a + b =~= b);
        assert(escape(a, c) + escape(b, c) =~= escape(b, c));
    } else {
        lemma_escape_concat(a.drop_first(), b, c);
        assert((a + b).drop_first() =~= a.drop_first() + b);
        assert(escape(a + b, c) =~= escape(a, c) + escape(b, c));
    }
}

/// Escaping adds a byte for each separator.
pub proof fn lemma_escape_blen(s: Seq<char>, c: char)
    requires
        c != '\\',
    ensures
        blen(escape(s, c)) == blen(s) + escapes(s, seq![c]),
    decreases s.len(),
{
    if s.len() == 0 {
        assert(escape(s, c) =~= s);
    } else {
        let rest = escape(s.drop_first(), c);
        lemma_escape_blen(s.drop_first(), c);
        lemma_blen_concat(seq![s[0]], s.drop_first());
        assert(seq![s[0]] + s.drop_first() =~= s);
        lemma_blen_concat(seq![s[0]], rest);
        if s[0] == c {
            lemma_blen_concat(seq!['\\'], seq![c] + rest);
            assert(seq!['\\'] + (seq![c] + rest) =~= escape(s, c));
            lemma_blen_ascii(seq!['\\']);
        }
    }
}

/// The front of a text holds no more escapes than the text.
pub proof fn lemma_escapes_front(s: Seq<char>, sep: Seq<char>, n: int)
    requires
        0 <= n <= s.len(),
    ensures
        escapes(s, sep) == escapes(s.take(n), sep) + escapes(s.skip(n), sep),
{
    if sep.len() == 1 {
        assert(sep =~= seq![sep[0]]);
        assert(s.take(n) + s.skip(n) =~= s);
        lemma_escape_concat(s.take(n), s.skip(n), sep[0]);
    }
}

proof fn lemma_written(pre: Seq<char>, texts: Seq<Seq<char>>, c: char)
    requires
        texts.len() > 0,
        c != '\\',
        pre.len() > 0 ==> pre.last() != '\\',
        forall|k: int|
            0 <= k < texts.len() - 1 && texts[k].len() > 0 ==> (#[trigger] texts[k]).last()
                != '\\',
    ensures
        ({
            let parts = split_escaped_from(pre + written(texts, c), c, pre.len() as int);
            &&& parts.len() == texts.len()
            &&& forall|k: int| 0 <= k < texts.len() ==> #[trigger] parts[k].content == texts[k]
        }),
    decreases texts.len(),
{
    let first = escape(texts[0], c);
    let s = pre + written(texts, c);
    let from = pre.len() as int;
    let e = from + first.len();
    lemma_escape(texts[0], c);
    lemma_unescape_escape(texts[0], c);
    lemma_next_sep(s, c, from);
    let i = next_sep(s, c, from);
    assert forall|k: int| from <= k < e implies !is_sep_at(s, c, k) by {
        assert(s[k] == first[k - from]);
        if s[k] == c {
            assert(s[k - 1] == first[k - from - 1]);
        }
    }
    assert(s.subrange(from, e) =~= first);
    if texts.len() > 1 {
        assert(s[e] == c);
        assert(is_sep_at(s, c, e)) by {
            if first.len() > 0 {
                assert(s[e - 1] == first.last());
            } else if from > 0 {
                assert(s[e - 1] == pre.last());
            }
        }
        assert(i == e);
        let next = pre + first + seq![c];
        let rest = texts.drop_first();
        assert(next + written(rest, c) =~= s);
        assert forall|k: int| 0 <= k < rest.len() - 1 && rest[k].len() > 0 implies (
        #[trigger] rest[k]).last() != '\\' by {
            assert(rest[k] == texts[k + 1]);
        }
        lemma_written(next, rest, c);
        let parts = split_escaped_from(s, c, from);
        let tail = split_escaped_from(s, c, e + 1);
        assert forall|k: int| 0 <= k < texts.len() implies #[trigger] parts[k].content
            == texts[k] by {
            if k > 0 {
                assert(parts[k] == tail[k - 1]);
                assert(rest[k - 1] == texts[k]);
            }
        }
    } else {
        assert(s.len() == e);
        assert(i == e);
    }
}

/// Texts that are written into a line with a separator of one character, each
/// separator in them escaped, are read back from it, whatever they hold. Only a
/// backslash at the end of a text that another follows would escape the separator
/// between them.
pub proof fn law_written_texts_are_read_back(texts: Seq<Seq<char>>, c: char)
    requires
        texts.len() > 0,
        c != '\\',
        forall|k: int|
            0 <= k < texts.len() - 1 && texts[k].len() > 0 ==> (#[trigger] texts[k]).last()
                != '\\',
    ensures
        ({
            let parts = split_spec(written(texts, c), seq![c]);
            &&& parts.len() == texts.len()
            &&& forall|k: int| 0 <= k < texts.len() ==> #[trigger] parts[k].content == texts[k]
        }),
{
    lemma_written(Seq::empty(), texts, c);
    assert(Seq::<char>::empty() + written(texts, c) =~= written(texts, c));
}

/// The texts one behind the other, with the string `sep` between two.
pub open spec fn joined_by(texts: Seq<Seq<char>>, sep: Seq<char>) -> Seq<char>
    decreases texts.len(),
{
    if texts.len() == 0 {
        Seq::empty()
    } else if texts.len() == 1 {
        texts[0]
    } else {
        texts[0] + sep + joined_by(texts.drop_first(), sep)
    }
}

/// The texts of parts.
pub open spec fn contents(parts: Seq<PartV>) -> Seq<Seq<char>> {
    parts.map_values(|p: PartV| p.content)
}

proof fn lemma_escaped_parts_written(s: Seq<char>, c: char, from: int)
    requires
        0 <= from <= s.len(),
        c != '\\',
        from > 0 ==> s[from - 1] != '\\',
    ensures
        written(contents(split_escaped_from(s, c, from)), c) == s.skip(from),
    decreases s.len() - from,
{
    lemma_next_sep(s, c, from);
    lemma_part_is_escaped(s, c, from);
    let i = next_sep(s, c, from);
    let texts = contents(split_escaped_from(s, c, from));
    let raw = s.subrange(from, i);
    if i < s.len() {
        lemma_escaped_parts_written(s, c, i + 1);
        let rest = contents(split_escaped_from(s, c, i + 1));
        assert(texts.drop_first() =~= rest);
        assert(s.skip(from) =~= raw + seq![c] + s.skip(i + 1));
    } else {
        assert(s.skip(from) =~= raw);
    }
}

proof fn lemma_multi_parts_joined(s: Seq<char>, pat: Seq<char>, from: int)
    requires
        0 <= from <= s.len(),
        pat.len() > 0,
    ensures
        joined_by(contents(split_multi_from(s, pat, from)), pat) == s.skip(from),
    decreases s.len() + 1 - from,
{
    lemma_match_from(s, pat, from);
    let i = match_from(s, pat, from);
    let texts = contents(split_multi_from(s, pat, from));
    if i <= s.len() {
        let next = (i + pat.len()) as int;
        lemma_multi_parts_joined(s, pat, next);
        let rest = contents(split_multi_from(s, pat, next));
        assert(texts.drop_first() =~= rest);
        assert(s.subrange(i, next) == pat);
        assert(s.skip(from) =~= s.subrange(from, i) + pat + s.skip(next));
    }
}

/// The parts of a line, written with the separator between two, give the line back:
/// with each separator in them escaped where it is one character, and as they are
/// where it is not. A backslash separates nothing.
pub proof fn law_parts_give_the_line_back(line: Seq<char>, sep: Seq<char>)
    ensures
        sep.len() == 1 && sep[0] != '\\' ==> written(contents(split_spec(line, sep)), sep[0])
            == line,
        sep.len() != 1 ==> joined_by(contents(split_spec(line, sep)), sep) == line,
{
    assert(line.skip(0) =~= line);
    if sep.len() == 1 && sep[0] != '\\' {
        lemma_escaped_parts_written(line, sep[0], 0);
    } else if sep.len() > 1 {
        lemma_multi_parts_joined(line, sep, 0);
    }
}

/// Whether a text stands at the position `p` of a line, which is its byte `start`.
pub open spec fn stands_at(line: Seq<char>, text: Seq<char>, start: int, p: int) -> bool {
    &&& 0 <= p <= p + text.len() <= line.len()
    &&& start == blen(line.take(p))
    &&& text == line.subrange(p, p + text.len())
}

/// Whether a line holds no escaped separator.
pub open spec fn has_no_escapes(line: Seq<char>, sep: Seq<char>) -> bool {
    sep.len() == 1 ==> forall|i: int|
        0 <= i < line.len() - 1 && #[trigger] line[i] == '\\' ==> line[i + 1] != sep[0]
}

proof fn lemma_unescape_nothing(s: Seq<char>, c: char)
    requires
        forall|i: int| 0 <= i < s.len() - 1 && #[trigger] s[i] == '\\' ==> s[i + 1] != c,
    ensures
        unescape(s, c) == s,
    decreases s.len(),
{
    if s.len() > 0 {
        let rest = s.drop_first();
        assert forall|i: int| 0 <= i < rest.len() - 1 && #[trigger] rest[i] == '\\' implies rest[i
            + 1] != c by {
            assert(s[i + 1] == '\\');
        }
        lemma_unescape_nothing(rest, c);
        assert(seq![s[0]] + rest =~= s);
    }
}

proof fn lemma_escaped_part_stands(s: Seq<char>, c: char, from: int, k: int)
    requires
        0 <= from <= s.len(),
        0 <= k < split_escaped_from(s, c, from).len(),
        has_no_escapes(s, seq![c]),
    ensures
        ({
            let part = split_escaped_from(s, c, from)[k];
            exists|p: int| #[trigger] stands_at(s, part.content, part.start, p)
        }),
    decreases s.len() - from,
{
    lemma_next_sep(s, c, from);
    let i = next_sep(s, c, from);
    let part = split_escaped_from(s, c, from)[k];
    if k == 0 {
        let text = s.subrange(from, i);
        assert forall|j: int| 0 <= j < text.len() - 1 && #[trigger] text[j] == '\\' implies text[j
            + 1] != c by {
            assert(s[from + j] == '\\');
        }
        lemma_unescape_nothing(text, c);
        assert(stands_at(s, part.content, part.start, from));
    } else {
        assert(part == split_escaped_from(s, c, i + 1)[k - 1]);
        lemma_escaped_part_stands(s, c, i + 1, k - 1);
    }
}

proof fn lemma_multi_part_stands(s: Seq<char>, pat: Seq<char>, from: int, k: int)
    requires
        0 <= from <= s.len(),
        0 <= k < split_multi_from(s, pat, from).len(),
    ensures
        ({
            let part = split_multi_from(s, pat, from)[k];
            exists|p: int| #[trigger] stands_at(s, part.content, part.start, p)
        }),
    decreases s.len() + 1 - from,
{
    lemma_match_from(s, pat, from);
    let i = match_from(s, pat, from);
    let part = split_multi_from(s, pat, from)[k];
    if k == 0 {
        assert(s.skip(from) =~= s.subrange(from, s.len() as int));
        assert(stands_at(s, part.content, part.start, from));
    } else {
        assert(part == split_multi_from(s, pat, (i + pat.len()) as int)[k - 1]);
        lemma_multi_part_stands(s, pat, (i + pat.len()) as int, k - 1);
    }
}

/// Each part of a line without escapes stands in the line, at the byte that it
/// says.
pub proof fn law_parts_stand_in_the_line(line: Seq<char>, sep: Seq<char>, k: int)
    requires
        has_no_escapes(line, sep),
        0 <= k < split_spec(line, sep).len(),
    ensures
        exists|p: int| #[trigger]
            stands_at(line, split_spec(line, sep)[k].content, split_spec(line, sep)[k].start, p),
{
    if sep.len() == 0 {
        assert(line.take(0) =~= Seq::<char>::empty());
        assert(encode_utf8(line.take(0)) =~= Seq::<u8>::empty());
        assert(line =~= line.subrange(0, line.len() as int));
        assert(stands_at(
            line,
            split_spec(line, sep)[k].content,
            split_spec(line, sep)[k].start,
            0,
        ));
    } else if sep.len() == 1 {
        assert(sep =~= seq![sep[0]]);
        lemma_escaped_part_stands(line, sep[0], 0, k);
    } else {
        lemma_multi_part_stands(line, sep, 0, k);
    }
}

proof fn lemma_part_stands_escaped(s: Seq<char>, c: char, from: int, k: int)
    requires
        0 <= from <= s.len(),
        c != '\\',
        from > 0 ==> s[from - 1] != '\\',
        0 <= k < split_escaped_from(s, c, from).len(),
    ensures
        ({
            let part = split_escaped_from(s, c, from)[k];
            exists|p: int| #[trigger] stands_at(s, escape(part.content, c), part.start, p)
        }),
    decreases s.len() - from,
{
    lemma_next_sep(s, c, from);
    let i = next_sep(s, c, from);
    let part = split_escaped_from(s, c, from)[k];
    if k == 0 {
        lemma_part_is_escaped(s, c, from);
        assert(stands_at(s, escape(part.content, c), part.start, from));
    } else {
        assert(part == split_escaped_from(s, c, i + 1)[k - 1]);
        lemma_part_stands_escaped(s, c, i + 1, k - 1);
    }
}

/// A text as it is written in a line: with its separators escaped where they can be.
pub open spec fn as_written(text: Seq<char>, sep: Seq<char>) -> Seq<char> {
    if sep.len() == 1 && sep[0] != '\\' {
        escape(text, sep[0])
    } else {
        text
    }
}

/// Each part of a line stands in the line as it is written, at the byte that it says,
/// escapes or not. Only where a backslash is to separate, which it does not, two in a
/// row are read as one.
pub proof fn law_parts_stand_as_written(line: Seq<char>, sep: Seq<char>, k: int)
    requires
        sep != seq!['\\'],
        0 <= k < split_spec(line, sep).len(),
    ensures
        ({
            let part = split_spec(line, sep)[k];
            exists|p: int| #[trigger] stands_at(line, as_written(part.content, sep), part.start, p)
        }),
{
    let part = split_spec(line, sep)[k];
    if sep.len() == 1 {
        assert(sep =~= seq![sep[0]]);
        lemma_part_stands_escaped(line, sep[0], 0, k);
        assert(escape(part.content, sep[0]) == as_written(part.content, sep));
    } else {
        law_parts_stand_in_the_line(line, sep, k);
        let p = choose|p: int| #[trigger] stands_at(line, part.content, part.start, p);
        assert(stands_at(line, as_written(part.content, sep), part.start, p));
    }
}

/// A piece of a text that stands in a line as it is written stands there too.
pub proof fn lemma_piece_stands(
    line: Seq<char>,
    text: Seq<char>,
    sep: Seq<char>,
    start: int,
    p: int,
    a: int,
    b: int,
)
    requires
        stands_at(line, as_written(text, sep), start, p),
        0 <= a <= b <= text.len(),
    ensures
        stands_at(
            line,
            as_written(text.subrange(a, b), sep),
            start + blen(text.take(a)) + escapes(text.take(a), sep),
            p + as_written(text.take(a), sep).len(),
        ),
{
    let before = text.take(a);
    let piece = text.subrange(a, b);
    let behind = text.skip(b);
    assert(before + (piece + behind) =~= text);
    let front = as_written(before, sep);
    let middle = as_written(piece, sep);
    let back = as_written(behind, sep);
    assert(as_written(text, sep) == front + (middle + back) && blen(front) == blen(before)
        + escapes(before, sep)) by {
        if sep.len() == 1 && sep[0] != '\\' {
            assert(sep =~= seq![sep[0]]);
            lemma_escape_concat(before, piece + behind, sep[0]);
            lemma_escape_concat(piece, behind, sep[0]);
            lemma_escape_blen(before, sep[0]);
        }
    }
    let q = p + front.len();
    let whole = as_written(text, sep);
    assert(whole == line.subrange(p, p + whole.len()));
    assert(front =~= line.subrange(p, q)) by {
        assert(front =~= whole.take(front.len() as int));
    }
    assert(middle =~= line.subrange(q, q + middle.len())) by {
        assert(middle =~= whole.subrange(front.len() as int, (front.len() + middle.len()) as int));
    }
    lemma_blen_subrange(line, p, q);
}

/// In a line without escapes a text that stands there is written as it is.
pub proof fn lemma_written_plainly(
    line: Seq<char>,
    text: Seq<char>,
    sep: Seq<char>,
    start: int,
    p: int,
)
    requires
        has_no_escapes(line, sep),
        stands_at(line, as_written(text, sep), start, p),
    ensures
        as_written(text, sep) == text,
{
    if sep.len() == 1 && sep[0] != '\\' {
        let whole = escape(text, sep[0]);
        assert forall|i: int|
            0 <= i < whole.len() - 1 && #[trigger] whole[i] == '\\' implies whole[i + 1]
            != sep[0] by {
            assert(line[p + i] == whole[i]);
            assert(line[p + i + 1] == whole[i + 1]);
        }
        lemma_unescape_nothing(whole, sep[0]);
        lemma_unescape_escape(text, sep[0]);
    }
}

/// A line is split into one part more than it has separators.
pub proof fn lemma_split_len(line: Seq<char>, sep: Seq<char>)
    ensures
        split_spec(line, sep).len() == count_seps(line, sep) + 1,
{
    if sep.len() == 1 {
        lemma_split_escaped_len(line, sep[0], 0);
    } else if sep.len() > 1 {
        lemma_split_multi_len(line, sep, 0);
    }
}

proof fn lemma_split_escaped_len(s: Seq<char>, c: char, from: int)
    requires
        0 <= from <= s.len(),
    ensures
        split_escaped_from(s, c, from).len() == sep_count(s, c, from) + 1,
    decreases s.len() - from,
{
    lemma_next_sep(s, c, from);
    lemma_sep_count_next(s, c, from);
    let i = next_sep(s, c, from);
    if i < s.len() {
        lemma_split_escaped_len(s, c, i + 1);
    }
}

proof fn lemma_split_multi_len(s: Seq<char>, pat: Seq<char>, from: int)
    requires
        0 <= from <= s.len(),
        pat.len() > 0,
    ensures
        split_multi_from(s, pat, from).len() == match_count(s, pat, from) + 1,
    decreases s.len() + 1 - from,
{
    lemma_match_from(s, pat, from);
    let i = match_from(s, pat, from);
    if i <= s.len() {
        lemma_split_multi_len(s, pat, (i + pat.len()) as int);
    }
}

/// Unescaping takes away characters, so it takes away bytes.
pub proof fn lemma_unescape_blen(s: Seq<char>, c: char)
    ensures
        blen(unescape(s, c)) <= blen(s),
    decreases s.len(),
{
    if s.len() == 0 {
        assert(unescape(s, c) =~= s);
    } else if s.len() >= 2 && s[0] == '\\' && s[1] == c {
        lemma_unescape_blen(s.skip(2), c);
        lemma_blen_concat(seq![c], unescape(s.skip(2), c));
        assert(s =~= seq!['\\'] + (seq![c] + s.skip(2)));
        lemma_blen_concat(seq!['\\'], seq![c] + s.skip(2));
        lemma_blen_concat(seq![c], s.skip(2));
    } else {
        lemma_unescape_blen(s.drop_first(), c);
        lemma_blen_concat(seq![s[0]], unescape(s.drop_first(), c));
        assert(s =~= seq![s[0]] + s.drop_first());
        lemma_blen_concat(seq![s[0]], s.drop_first());
    }
}

/// Every part lies within its line: its start, its bytes and those of its escapes stay
/// within the bytes of the line, and no specifier was found for it yet.
pub proof fn lemma_split_bounds(line: Seq<char>, sep: Seq<char>)
    ensures
        split_spec(line, sep).len() >= 1,
        forall|k: int|
            #![trigger split_spec(line, sep)[k]]
            0 <= k < split_spec(line, sep).len() ==> {
                &&& 0 <= split_spec(line, sep)[k].start
                &&& split_spec(line, sep)[k].start + blen(split_spec(line, sep)[k].content)
                    + escapes(split_spec(line, sep)[k].content, sep) <= blen(line)
                &&& split_spec(line, sep)[k].forced is None
            },
{
    lemma_split_len(line, sep);
    if sep.len() == 1 {
        assert(sep =~= seq![sep[0]]);
        lemma_split_escaped_bounds(line, sep[0], 0);
    } else if sep.len() > 1 {
        lemma_split_multi_bounds(line, sep, 0);
    }
}

proof fn lemma_split_escaped_bounds(s: Seq<char>, c: char, from: int)
    requires
        0 <= from <= s.len(),
        from > 0 ==> s[from - 1] != '\\',
    ensures
        forall|k: int|
            #![trigger split_escaped_from(s, c, from)[k]]
            0 <= k < split_escaped_from(s, c, from).len() ==> {
                &&& 0 <= split_escaped_from(s, c, from)[k].start
                &&& split_escaped_from(s, c, from)[k].start + blen(
                    split_escaped_from(s, c, from)[k].content,
                ) + escapes(split_escaped_from(s, c, from)[k].content, seq![c]) <= blen(s)
                &&& split_escaped_from(s, c, from)[k].forced is None
            },
    decreases s.len() - from,
{
    lemma_next_sep(s, c, from);
    let i = next_sep(s, c, from);
    let raw = s.subrange(from, i);
    if c == '\\' {
        lemma_unescape_blen(raw, c);
    } else {
        lemma_part_is_escaped(s, c, from);
        lemma_escape_blen(unescape(raw, c), c);
    }
    lemma_blen_subrange(s, from, i);
    if i < s.len() {
        lemma_split_escaped_bounds(s, c, i + 1);
        let rest = split_escaped_from(s, c, i + 1);
        let all = split_escaped_from(s, c, from);
        assert forall|k: int| #![trigger all[k]] 0 <= k < all.len() implies {
            &&& 0 <= all[k].start
            &&& all[k].start + blen(all[k].content) + escapes(all[k].content, seq![c]) <= blen(s)
            &&& all[k].forced is None
        } by {
            if k > 0 {
                assert(all[k] == rest[k - 1]);
            }
        }
    }
}

proof fn lemma_split_multi_bounds(s: Seq<char>, pat: Seq<char>, from: int)
    requires
        0 <= from <= s.len(),
        pat.len() > 0,
    ensures
        forall|k: int|
            #![trigger split_multi_from(s, pat, from)[k]]
            0 <= k < split_multi_from(s, pat, from).len() ==> {
                &&& 0 <= split_multi_from(s, pat, from)[k].start
                &&& split_multi_from(s, pat, from)[k].start + blen(
                    split_multi_from(s, pat, from)[k].content,
                ) <= blen(s)
                &&& split_multi_from(s, pat, from)[k].forced is None
            },
    decreases s.len() + 1 - from,
{
    lemma_match_from(s, pat, from);
    let i = match_from(s, pat, from);
    lemma_blen_split(s, from);
    if i <= s.len() {
        lemma_blen_subrange(s, from, i);
        let next = (i + pat.len()) as int;
        lemma_split_multi_bounds(s, pat, next);
        let rest = split_multi_from(s, pat, next);
        let all = split_multi_from(s, pat, from);
        assert forall|k: int| #![trigger all[k]] 0 <= k < all.len() implies {
            &&& 0 <= all[k].start
            &&& all[k].start + blen(all[k].content) <= blen(s)
            &&& all[k].forced is None
        } by {
            if k > 0 {
                assert(all[k] == rest[k - 1]);
            }
        }
    }
}

// ---------------------------------------------------------------------------
// Executable operations.
// ---------------------------------------------------------------------------

/// A part of a line, with its text unescaped and its byte offset in the line.
#[derive(Debug)]
pub struct CellPart {
    /// The text of the part; an escaped separator is the separator here.
    pub content: String,
    /// The byte offset in the line at which the part starts.
    pub start: usize,
    /// The specifier that stood at the end of the part before, if any.
    pub forced_spec: Option<CellSpecifier>,
}

impl DeepView for CellPart {
    type V = PartV;

    open spec fn deep_view(&self) -> PartV {
        PartV { content: self.content@, start: self.start as int, forced: self.forced_spec }
    }
}

/// The first separating position at or after `from`, or the number of characters.
fn find_sep(cs: &[char], c: char, from: usize) -> (r: usize)
    requires
        from <= cs@.len(),
    ensures
        r == next_sep(cs@, c, from as int),
        from <= r <= cs@.len(),
{
    let mut i: usize = from;
    while i < cs.len()
        invariant
            from <= i <= cs@.len(),
            next_sep(cs@, c, from as int) == next_sep(cs@, c, i as int),
        decreases cs.len() - i,
    {
        if cs[i] == c && c != '\\' && !(i > 0 && cs[i - 1] == '\\') {
            return i;
        }
        i += 1;
    }
    i
}

/// The characters from `from` to `to` with the escaped separators unescaped.
fn unescape_range(cs: &[char], c: char, from: usize, to: usize) -> (r: String)
    requires
        from <= to <= cs@.len(),
    ensures
        r@ == unescape(cs@.subrange(from as int, to as int), c),
{
    let mut out = String::new();
    let mut i: usize = from;
    let ghost whole = unescape(cs@.subrange(from as int, to as int), c);
    assert(out@ + whole =~= whole);
    while i < to
        invariant
            from <= i <= to <= cs.len(),
            whole == out@ + unescape(cs@.subrange(i as int, to as int), c),
        decreases to - i,
    {
        let ghost rest = cs@.subrange(i as int, to as int);
        let ghost before = out@;
        if cs[i] == '\\' && to - i >= 2 && cs[i + 1] == c {
            out.push(c);
            assert(rest.skip(2) =~= cs@.subrange(i + 2, to as int));
            assert(before + (seq![c] + unescape(rest.skip(2), c)) =~= out@ + unescape(
                rest.skip(2),
                c,
            ));
            i += 2;
        } else {
            out.push(cs[i]);
            assert(rest.drop_first() =~= cs@.subrange(i + 1, to as int));
            assert(before + (seq![rest[0]] + unescape(rest.drop_first(), c)) =~= out@ + unescape(
                rest.drop_first(),
                c,
            ));
            i += 1;
        }
    }
    assert(cs@.subrange(i as int, to as int) =~= Seq::empty());
    assert(out@ + unescape(cs@.subrange(i as int, to as int), c) =~= out@);
    out
}

/// Split a line at a one-character separator. A backslash before the separator
/// escapes it; the parts hold the text without those backslashes.
pub fn split_escaped(line: &str, separator: char) -> (r: Vec<CellPart>)
    ensures
        r.deep_view() == split_escaped_from(line@, separator, 0),
{
    let cs = chars_of(line);
    let n: usize = cs.len();
    let mut parts: Vec<CellPart> = Vec::new();
    let mut from: usize = 0;
    let ghost whole = split_escaped_from(line@, separator, 0);
    assert(parts.deep_view() + whole =~= whole);
    loop
        invariant
            from <= n,
            n == line@.len(),
            cs@ == line@,
            whole == split_escaped_from(line@, separator, 0),
            whole == parts.deep_view() + split_escaped_from(line@, separator, from as int),
        decreases n - from,
    {
        let i = find_sep(&cs, separator, from);
        let content = unescape_range(&cs, separator, from, i);
        let start = byte_len(line.substring_char(0, from));
        assert(line@.subrange(0, from as int) =~= line@.take(from as int));
        let ghost before = parts.deep_view();
        parts.push(CellPart { content, start, forced_spec: None });
        let ghost part = PartV {
            content: unescape(line@.subrange(from as int, i as int), separator),
            start: blen(line@.take(from as int)) as int,
            forced: None,
        };
        assert(parts.deep_view() =~= before.push(part));
        if i >= n {
            assert(before + seq![part] =~= before.push(part));
            return parts;
        }
        from = i + 1;
        assert(before + (seq![part] + split_escaped_from(line@, separator, from as int))
            =~= before.push(part) + split_escaped_from(line@, separator, from as int));
    }
}

/// Split a line at a literal separator of several characters.
pub fn split_multi_char(line: &str, separator: &str) -> (r: Vec<CellPart>)
    requires
        separator@.len() > 0,
    ensures
        r.deep_view() == split_multi_from(line@, separator@, 0),
{
    let cs = chars_of(line);
    let ps = chars_of(separator);
    let n: usize = cs.len();
    let mut parts: Vec<CellPart> = Vec::new();
    let mut from: usize = 0;
    let ghost whole = split_multi_from(line@, separator@, 0);
    assert(parts.deep_view() + whole =~= whole);
    loop
        invariant
            from <= n,
            n == line@.len(),
            cs@ == line@,
            ps@ == separator@,
            separator@.len() > 0,
            whole == split_multi_from(line@, separator@, 0),
            whole == parts.deep_view() + split_multi_from(line@, separator@, from as int),
        decreases n - from,
    {
        let start = byte_len(line.substring_char(0, from));
        assert(line@.subrange(0, from as int) =~= line@.take(from as int));
        proof {
            lemma_match_from(line@, separator@, from as int);
        }
        let ghost before = parts.deep_view();
        match chars_find(&cs, &ps, from) {
            None => {
                let content = string_of(&cs, from, n);
                assert(content@ =~= line@.skip(from as int));
                parts.push(CellPart { content, start, forced_spec: None });
                let ghost part = PartV {
                    content: line@.skip(from as int),
                    start: blen(line@.take(from as int)) as int,
                    forced: None,
                };
                assert(parts.deep_view() =~= before.push(part));
                assert(before + seq![part] =~= before.push(part));
                return parts;
            },
            Some(i) => {
                let content = string_of(&cs, from, i);
                parts.push(CellPart { content, start, forced_spec: None });
                let ghost part = PartV {
                    content: line@.subrange(from as int, i as int),
                    start: blen(line@.take(from as int)) as int,
                    forced: None,
                };
                assert(parts.deep_view() =~= before.push(part));
                from = i + ps.len();
                assert(before + (seq![part] + split_multi_from(line@, separator@, from as int))
                    =~= before.push(part) + split_multi_from(line@, separator@, from as int));
            },
        }
    }
}

/// Split a line at the separator, whatever its kind.
pub fn split_line(line: &str, separator: &Separator<'_>) -> (r: Vec<CellPart>)
    requires
        separator.wf(),
    ensures
        r.deep_view() == split_spec(line@, separator.raw@),
{
    match separator.kind {
        SepKind::SingleCodepoint(c) => split_escaped(line, c),
        SepKind::MultiCodepoint => split_multi_char(line, separator.raw),
        SepKind::Empty => {
            let mut parts: Vec<CellPart> = Vec::new();
            parts.push(CellPart { content: line.to_owned(), start: 0, forced_spec: None });
            assert(parts.deep_view() =~= split_spec(line@, separator.raw@));
            parts
        },
    }
}

/// The position of the first separator that is not escaped.
pub fn find_first_separator(line: &str, separator: &Separator<'_>) -> (r: Option<usize>)
    requires
        separator.wf(),
    ensures
        match r {
            Some(i) => first_sep(line@, separator.raw@) == Some(i as int) && i <= line@.len(),
            None => first_sep(line@, separator.raw@) is None,
        },
{
    let cs = chars_of(line);
    match separator.kind {
        SepKind::Empty => None,
        SepKind::MultiCodepoint => {
            let ps = chars_of(separator.raw);
            chars_find(&cs, &ps, 0)
        },
        SepKind::SingleCodepoint(c) => {
            let i = find_sep(&cs, c, 0);
            if i < cs.len() {
                Some(i)
            } else {
                None
            }
        },
    }
}

/// Whether the line holds a separator that is not escaped.
pub fn line_has_unescaped_separator(line: &str, separator: &Separator<'_>) -> (r: bool)
    requires
        separator.wf(),
    ensures
        r == has_sep(line@, separator.raw@),
{
    proof {
        lemma_has_sep_first(line@, separator.raw@);
    }
    match find_first_separator(line, separator) {
        Some(_) => true,
        None => false,
    }
}

/// The number of separators in the line that are not escaped.
pub fn count_unescaped_separators(line: &str, separator: &Separator<'_>) -> (r: usize)
    requires
        separator.wf(),
    ensures
        r == count_seps(line@, separator.raw@),
{
    let parts = split_line(line, separator);
    proof {
        lemma_split_len(line@, separator.raw@);
        assert(parts.deep_view().len() == parts@.len());
    }
    parts.len() - 1
}

} // verus!

//! Line endings and white space at the ends of lines.

use crate::text::{
    chars_of, ends_in_ws, ends_with, ends_with_spec, index_from, is_whitespace, is_ws,
    lemma_index_from, lemma_trimmed_len, lines, lines_from, lines_spec, strip_cr,
    trim_end, trim_end_spec,
};
use std::borrow::Cow;
use vstd::prelude::*;
use vstd::string::*;

verus! {

/// The text without the line ending at its end, if it has one.
pub open spec fn without_last_ending(s: Seq<char>) -> Seq<char> {
    if ends_with_spec(s, seq!['\r', '\n']) {
        s.take(s.len() - 2)
    } else if ends_with_spec(s, seq!['\n']) {
        s.take(s.len() - 1)
    } else {
        s
    }
}

/// Whether white space stands at `i`, at the end of a line.
pub open spec fn is_trailing_blank(s: Seq<char>, i: int) -> bool {
    &&& 0 <= i < s.len()
    &&& is_ws(s[i]) && s[i] != '\n'
    &&& i + 1 == s.len() || s[i + 1] == '\n'
}

/// Whether a text has to be put together anew: it holds a carriage return, or white
/// space at the end of a line.
pub open spec fn needs_rebuild(s: Seq<char>) -> bool {
    s.contains('\r') || exists|i: int| #[trigger] is_trailing_blank(s, i)
}

/// The lines one behind the other, with a line feed between two.
pub open spec fn joined(lines: Seq<Seq<char>>) -> Seq<char>
    decreases lines.len(),
{
    if lines.len() == 0 {
        Seq::empty()
    } else if lines.len() == 1 {
        lines[0]
    } else {
        joined(lines.drop_last()) + seq!['\n'] + lines.last()
    }
}

/// The lines without white space at their ends.
pub open spec fn trimmed_lines(lines: Seq<Seq<char>>) -> Seq<Seq<char>> {
    Seq::new(lines.len(), |i: int| trim_end_spec(lines[i]))
}

/// The lines of a text without white space at their ends, with a line feed between
/// two.
pub open spec fn normalized(s: Seq<char>) -> Seq<char> {
    joined(trimmed_lines(lines_spec(s)))
}

// ---------------------------------------------------------------------------
// Laws.
// ---------------------------------------------------------------------------

/// A line holds no line feed.
pub proof fn lemma_line_holds_no_feed(s: Seq<char>, from: int, k: int)
    requires
        0 <= from <= s.len(),
        0 <= k < lines_from(s, from).len(),
    ensures
        !lines_from(s, from)[k].contains('\n'),
    decreases s.len() - from,
{
    if from < s.len() {
        lemma_index_from(s, '\n', from);
        let e = index_from(s, '\n', from);
        let line = s.subrange(from, if e < s.len() { e } else { s.len() as int });
        assert forall|j: int| 0 <= j < line.len() implies line[j] != '\n' by {
            assert(line[j] == s[from + j]);
        }
        if e < s.len() && k > 0 {
            assert(lines_from(s, from)[k] == lines_from(s, e + 1)[k - 1]);
            lemma_line_holds_no_feed(s, e + 1, k - 1);
        }
    }
}

proof fn lemma_joined_has_no_trailing_blank(lines: Seq<Seq<char>>, i: int)
    requires
        forall|k: int|
            #![trigger lines[k]]
            0 <= k < lines.len() ==> !ends_in_ws(lines[k]) && !lines[k].contains('\n'),
    ensures
        !is_trailing_blank(joined(lines), i),
    decreases lines.len(),
{
    if lines.len() == 1 {
        let line = lines[0];
        if is_trailing_blank(line, i) && i + 1 < line.len() {
            assert(line.contains(line[i + 1]));
        }
    } else if lines.len() > 1 {
        let before = lines.drop_last();
        let head = joined(before);
        let last = lines.last();
        let all = joined(lines);
        assert(all == head + seq!['\n'] + last);
        assert(lines[lines.len() - 1] == last);
        assert forall|k: int| #![trigger before[k]] 0 <= k < before.len() implies !ends_in_ws(
            before[k],
        ) && !before[k].contains('\n') by {
            assert(before[k] == lines[k]);
        }
        lemma_joined_has_no_trailing_blank(before, i);
        if is_trailing_blank(all, i) {
            if i < head.len() {
                assert(all[i] == head[i]);
                if i + 1 < head.len() {
                    assert(all[i + 1] == head[i + 1]);
                }
                assert(is_trailing_blank(head, i));
            } else if i == head.len() {
                assert(all[i] == '\n');
            } else {
                let j = i - head.len() - 1;
                assert(all[i] == last[j]);
                if i + 1 < all.len() {
                    assert(all[i + 1] == last[j + 1]);
                    assert(last.contains(last[j + 1]));
                }
            }
        }
    }
}

/// No line of a normalized text ends in white space.
pub proof fn law_no_trailing_blanks(s: Seq<char>, i: int)
    ensures
        !is_trailing_blank(normalized(s), i),
{
    let lines = trimmed_lines(lines_spec(s));
    assert forall|k: int| #![trigger lines[k]] 0 <= k < lines.len() implies !ends_in_ws(
        lines[k],
    ) && !lines[k].contains('\n') by {
        let line = lines_spec(s)[k];
        lemma_line_holds_no_feed(s, 0, k);
        lemma_trimmed_len(line);
        let t = trim_end_spec(line);
        if t.contains('\n') {
            let j = choose|j: int| 0 <= j < t.len() && t[j] == '\n';
            assert(line[j] == '\n');
            assert(line.contains('\n'));
        }
    }
    lemma_joined_has_no_trailing_blank(lines, i);
}

proof fn lemma_joined_front(first: Seq<char>, rest: Seq<Seq<char>>)
    requires
        rest.len() > 0,
    ensures
        joined(seq![first] + rest) == first + seq!['\n'] + joined(rest),
    decreases rest.len(),
{
    let all = seq![first] + rest;
    assert(all.last() == rest.last());
    if rest.len() == 1 {
        assert(all.drop_last() =~= seq![first]);
        assert(joined(all.drop_last()) == first);
    } else {
        assert(all.drop_last() =~= seq![first] + rest.drop_last());
        lemma_joined_front(first, rest.drop_last());
        assert(joined(all) =~= first + seq!['\n'] + joined(rest));
    }
}

proof fn lemma_joined_lines_from(s: Seq<char>, from: int)
    requires
        0 <= from < s.len(),
        s.last() != '\n',
        forall|i: int| !#[trigger] is_trailing_blank(s, i),
    ensures
        lines_from(s, from).len() > 0,
        joined(lines_from(s, from)) == s.skip(from),
    decreases s.len() - from,
{
    lemma_index_from(s, '\n', from);
    let e = index_from(s, '\n', from);
    if e < s.len() {
        let line = s.subrange(from, e);
        if line.len() > 0 {
            assert(line.last() == s[e - 1]);
            assert(!is_trailing_blank(s, e - 1));
        }
        lemma_joined_lines_from(s, e + 1);
        lemma_joined_front(line, lines_from(s, e + 1));
        assert(s.skip(from) =~= line + seq!['\n'] + s.skip(e + 1));
    }
}

/// What is taken away at the end of a text.
proof fn lemma_last_ending(s: Seq<char>)
    ensures
        ({
            let t = without_last_ending(s);
            let more = s.len() - t.len();
            &&& 0 <= more <= 2
            &&& t == s.take(t.len() as int)
            &&& more == 0 && s.len() > 0 ==> s.last() != '\n'
            &&& more > 0 ==> s.last() == '\n'
            &&& more == 1 && t.len() > 0 ==> t.last() != '\r'
            &&& more == 2 ==> s[s.len() - 2] == '\r'
        }),
{
    let n = s.len() as int;
    if n >= 2 {
        let two = s.subrange(n - 2, n);
        assert(two[0] == s[n - 2] && two[1] == s[n - 1]);
        if s[n - 2] == '\r' && s[n - 1] == '\n' {
            assert(two =~= seq!['\r', '\n']);
        }
    }
    if n >= 1 {
        let one = s.subrange(n - 1, n);
        assert(one[0] == s[n - 1]);
        if s[n - 1] == '\n' {
            assert(one =~= seq!['\n']);
        }
    }
    assert(s.take(n) =~= s);
}

/// The last line of a text is what stands before its ending.
proof fn lemma_last_line(s: Seq<char>, from: int)
    requires
        0 <= from < s.len(),
        from <= without_last_ending(s).len(),
        index_from(s, '\n', from) + 1 >= s.len(),
    ensures
        lines_from(s, from) == seq![without_last_ending(s).skip(from)],
{
    let t = without_last_ending(s);
    let e = index_from(s, '\n', from);
    lemma_last_ending(s);
    lemma_index_from(s, '\n', from);
    if e < s.len() {
        let whole = s.subrange(from, e);
        if s.len() == t.len() + 2 {
            assert(whole.last() == '\r');
            assert(strip_cr(whole) =~= t.skip(from));
        } else {
            assert(whole =~= t.skip(from));
            if whole.len() > 0 {
                assert(whole.last() == t.last());
            }
        }
        assert(lines_from(s, e + 1) =~= Seq::empty());
    } else {
        assert(s.skip(from) =~= t.skip(from));
    }
    assert(lines_from(s, from) =~= seq![t.skip(from)]);
}

/// A line of a text that needs no change has no white space at its end.
proof fn lemma_line_is_trimmed(t: Seq<char>, from: int, stop: int)
    requires
        0 <= from <= stop <= t.len(),
        stop < t.len() ==> t[stop] == '\n',
        forall|k: int| from <= k < stop ==> #[trigger] t[k] != '\n',
        !needs_rebuild(t),
    ensures
        trim_end_spec(t.subrange(from, stop)) == t.subrange(from, stop),
        from < stop ==> t[stop - 1] != '\r',
{
    let line = t.subrange(from, stop);
    lemma_trimmed_len(line);
    if from < stop {
        assert(line.last() == t[stop - 1]);
        assert(t.contains(t[stop - 1]));
        assert(!is_trailing_blank(t, stop - 1));
    }
    assert(trim_end_spec(line) =~= line);
}

/// A line of such a text that is not the last one comes before a line feed and the rest.
proof fn lemma_next_line(s: Seq<char>, from: int)
    requires
        0 <= from <= without_last_ending(s).len(),
        index_from(s, '\n', from) + 1 < s.len(),
        !needs_rebuild(without_last_ending(s)),
    ensures
        ({
            let t = without_last_ending(s);
            let e = index_from(s, '\n', from);
            let line = t.subrange(from, e);
            &&& from <= e < t.len()
            &&& lines_from(s, from) == seq![line] + lines_from(s, e + 1)
            &&& trim_end_spec(line) == line
            &&& t.skip(from) == line + seq!['\n'] + t.skip(e + 1)
        }),
{
    let t = without_last_ending(s);
    let e = index_from(s, '\n', from);
    lemma_last_ending(s);
    lemma_index_from(s, '\n', from);
    assert(forall|k: int| 0 <= k < t.len() ==> #[trigger] t[k] == s[k]);
    assert(e < t.len());
    let line = t.subrange(from, e);
    assert(s.subrange(from, e) =~= line);
    lemma_line_is_trimmed(t, from, e);
    assert(strip_cr(line) == line);
    assert(t.skip(from) =~= line + seq!['\n'] + t.skip(e + 1));
}

/// A text that needs no change but at its end is normalized by taking that away.
proof fn lemma_normal_from(s: Seq<char>, from: int)
    requires
        0 <= from <= without_last_ending(s).len(),
        !needs_rebuild(without_last_ending(s)),
    ensures
        joined(trimmed_lines(lines_from(s, from))) == without_last_ending(s).skip(from),
    decreases s.len() - from,
{
    let t = without_last_ending(s);
    let all = lines_from(s, from);
    let e = index_from(s, '\n', from);
    lemma_last_ending(s);
    if from >= s.len() {
        assert(trimmed_lines(all) =~= Seq::empty());
        assert(t.skip(from) =~= Seq::empty());
    } else if e + 1 >= s.len() {
        let last = t.skip(from);
        lemma_last_line(s, from);
        assert(trim_end_spec(last) == last) by {
            lemma_index_from(s, '\n', from);
            lemma_line_is_trimmed(t, from, t.len() as int);
            assert(last =~= t.subrange(from, t.len() as int));
        }
        assert(trimmed_lines(all) =~= seq![last]);
    } else {
        let line = t.subrange(from, e);
        let rest = lines_from(s, e + 1);
        lemma_next_line(s, from);
        lemma_normal_from(s, e + 1);
        assert(trimmed_lines(all) =~= seq![line] + trimmed_lines(rest));
        lemma_joined_front(line, trimmed_lines(rest));
    }
}

/// A normalized text is its lines, one behind the other, unless it ends in a line
/// feed: then the line feed is lost.
pub proof fn law_normalized_is_its_lines(s: Seq<char>)
    requires
        normalized(s).len() > 0 ==> normalized(s).last() != '\n',
    ensures
        joined(lines_spec(normalized(s))) == normalized(s),
{
    let t = normalized(s);
    assert forall|i: int| !#[trigger] is_trailing_blank(t, i) by {
        law_no_trailing_blanks(s, i);
    }
    if t.len() > 0 {
        lemma_joined_lines_from(t, 0);
        assert(t.skip(0) =~= t);
    }
}

// ---------------------------------------------------------------------------
// Executable operations.
// ---------------------------------------------------------------------------

/// Put lines together, with a line feed between two.
pub fn join_lines(lines: &Vec<String>) -> (r: String)
    ensures
        r@ == joined(lines.deep_view()),
{
    let mut out = String::new();
    let ghost lv = lines.deep_view();
    let mut i: usize = 0;
    assert(lv.take(0) =~= Seq::empty());
    while i < lines.len()
        invariant
            i <= lines@.len(),
            lv == lines.deep_view(),
            out@ == joined(lv.take(i as int)),
        decreases lines.len() - i,
    {
        let ghost before = out@;
        if i > 0 {
            out.push('\n');
        }
        out.append(lines[i].as_str());
        assert(lv[i as int] == lines@[i as int]@);
        assert(lv.take(i + 1).drop_last() =~= lv.take(i as int));
        assert(out@ =~= joined(lv.take(i + 1))) by {
            if i > 0 {
                assert(out@ =~= before + seq!['\n'] + lv[i as int]);
            } else {
                assert(before =~= Seq::<char>::empty());
                assert(out@ =~= lv[0]);
            }
        }
        i += 1;
    }
    assert(lv.take(i as int) =~= lv);
    out
}

fn must_rebuild(s: &str) -> (r: bool)
    ensures
        r == needs_rebuild(s@),
{
    let cs = chars_of(s);
    let mut i: usize = 0;
    while i < cs.len()
        invariant
            i <= cs@.len(),
            cs@ == s@,
            forall|k: int| 0 <= k < i ==> s@[k] != '\r',
            forall|k: int| 0 <= k < i ==> !#[trigger] is_trailing_blank(s@, k),
        decreases cs.len() - i,
    {
        if cs[i] == '\r' {
            assert(s@[i as int] == '\r');
            return true;
        }
        if cs[i] != '\n' && is_whitespace(cs[i]) && (i + 1 == cs.len() || cs[i + 1] == '\n') {
            assert(is_trailing_blank(s@, i as int));
            return true;
        }
        i += 1;
    }
    assert(!s@.contains('\r'));
    false
}

/// Normalize line endings and white space at the ends of lines. The text is
/// borrowed where it needs no change but at its end.
pub fn normalize<'a>(input: &'a str) -> (r: Cow<'a, str>)
    ensures
        r@ == normalized(input@),
        r is Borrowed <==> !needs_rebuild(without_last_ending(input@)),
{
    let n: usize = input.unicode_len();
    let crlf = "\r\n";
    let lf = "\n";
    proof {
        reveal_strlit("\r\n");
        reveal_strlit("\n");
        assert(crlf@ =~= seq!['\r', '\n']);
        assert(lf@ =~= seq!['\n']);
    }
    let kept: usize = if ends_with(input, crlf) {
        n - 2
    } else if ends_with(input, lf) {
        n - 1
    } else {
        n
    };
    let trimmed = input.substring_char(0, kept);
    assert(trimmed@ =~= without_last_ending(input@));
    if !must_rebuild(trimmed) {
        proof {
            lemma_normal_from(input@, 0);
            assert(trimmed@.skip(0) =~= trimmed@);
        }
        return Cow::Borrowed(trimmed);
    }
    let all = lines(input);
    let ghost lv = lines_spec(input@);
    let ghost want = trimmed_lines(lv);
    assert(all.deep_view() == lv);
    let mut out: Vec<String> = Vec::new();
    let mut i: usize = 0;
    assert(out.deep_view() =~= want.take(0));
    while i < all.len()
        invariant
            i <= all@.len(),
            all.deep_view() == lv,
            want == trimmed_lines(lv),
            out.deep_view() == want.take(i as int),
        decreases all.len() - i,
    {
        let ghost before = out.deep_view();
        let line = trim_end(all[i]).to_owned();
        assert(lv[i as int] == all@[i as int]@);
        out.push(line);
        assert(out.deep_view() =~= before.push(want[i as int]));
        assert(want.take(i + 1) =~= want.take(i as int).push(want[i as int]));
        i += 1;
    }
    assert(lv.len() == all@.len());
    assert(want.take(i as int) =~= want);
    Cow::Owned(join_lines(&out))
}

} // verus!

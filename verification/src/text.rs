//! Text operations on characters, with byte offsets measured in UTF-8.
//!
//! A string is modelled by the sequence of its characters. Offsets that leave
//! the library are byte offsets: the length of the UTF-8 encoding of the
//! characters that come before.

use vstd::prelude::*;
use vstd::string::*;
use vstd::utf8::*;

verus! {

/// `String::push` appends the given character to the end of the string.
pub assume_specification[ std::string::String::push ](s: &mut std::string::String, c: char)
    ensures
        final(s)@ == old(s)@.push(c),
;

/// The number of bytes that `s` takes in UTF-8.
pub open spec fn blen(s: Seq<char>) -> nat {
    encode_utf8(s).len()
}

/// A character with the Unicode property `White_Space`.
pub open spec fn is_ws(c: char) -> bool {
    ||| '\u{0009}' <= c <= '\u{000D}'
    ||| c == '\u{0020}'
    ||| c == '\u{0085}'
    ||| c == '\u{00A0}'
    ||| c == '\u{1680}'
    ||| '\u{2000}' <= c <= '\u{200A}'
    ||| c == '\u{2028}'
    ||| c == '\u{2029}'
    ||| c == '\u{202F}'
    ||| c == '\u{205F}'
    ||| c == '\u{3000}'
}

/// The number of characters up to and with the last one that is not white space.
pub open spec fn trimmed_len(s: Seq<char>) -> int
    decreases s.len(),
{
    if s.len() == 0 {
        0
    } else if is_ws(s.last()) {
        trimmed_len(s.drop_last())
    } else {
        s.len() as int
    }
}

/// The number of white space characters at the start of `s`.
pub open spec fn leading_ws(s: Seq<char>) -> int
    decreases s.len(),
{
    if s.len() == 0 || !is_ws(s[0]) {
        0
    } else {
        1 + leading_ws(s.drop_first())
    }
}

/// The position of the last white space character, or -1.
pub open spec fn last_ws(s: Seq<char>) -> int
    decreases s.len(),
{
    if s.len() == 0 {
        -1
    } else if is_ws(s.last()) {
        s.len() - 1
    } else {
        last_ws(s.drop_last())
    }
}

/// Whether `s` ends in white space.
pub open spec fn ends_in_ws(s: Seq<char>) -> bool {
    s.len() > 0 && is_ws(s.last())
}

/// The text behind the last white space.
pub open spec fn last_token(s: Seq<char>) -> Seq<char> {
    s.skip(last_ws(s) + 1)
}

/// `s` without the white space at its end.
pub open spec fn trim_end_spec(s: Seq<char>) -> Seq<char> {
    s.take(trimmed_len(s))
}

/// `s` without the white space at its start.
pub open spec fn trim_start_spec(s: Seq<char>) -> Seq<char> {
    s.skip(leading_ws(s))
}

/// `s` without the white space at either end.
pub open spec fn trim_spec(s: Seq<char>) -> Seq<char> {
    trim_end_spec(trim_start_spec(s))
}

/// The position of the first `c` in `s` at or after `from`, or the length of `s`.
pub open spec fn index_from(s: Seq<char>, c: char, from: int) -> int
    decreases s.len() - from,
{
    if from >= s.len() {
        s.len() as int
    } else if s[from] == c {
        from
    } else {
        index_from(s, c, from + 1)
    }
}

/// Whether `pat` stands in `s` at position `i`.
pub open spec fn matches_at(s: Seq<char>, pat: Seq<char>, i: int) -> bool {
    &&& 0 <= i
    &&& i + pat.len() <= s.len()
    &&& s.subrange(i, i + pat.len()) == pat
}

/// The first position at or after `from` where `pat` stands in `s`; one past
/// the length of `s` if there is none.
pub open spec fn match_from(s: Seq<char>, pat: Seq<char>, from: int) -> int
    decreases s.len() + 1 - from,
{
    if from > s.len() {
        s.len() as int + 1
    } else if matches_at(s, pat, from) {
        from
    } else {
        match_from(s, pat, from + 1)
    }
}

/// Whether `pat` stands anywhere in `s`.
pub open spec fn contains_spec(s: Seq<char>, pat: Seq<char>) -> bool {
    exists|i: int| matches_at(s, pat, i)
}

/// Whether `s` begins with `pat`.
pub open spec fn starts_with_spec(s: Seq<char>, pat: Seq<char>) -> bool {
    matches_at(s, pat, 0)
}

/// Whether `s` ends with `pat`.
pub open spec fn ends_with_spec(s: Seq<char>, pat: Seq<char>) -> bool {
    matches_at(s, pat, s.len() - pat.len())
}

/// `s` without the one carriage return at its end, if it has one.
pub open spec fn strip_cr(s: Seq<char>) -> Seq<char> {
    if s.len() > 0 && s.last() == '\r' {
        s.drop_last()
    } else {
        s
    }
}

/// The lines of `s` from position `from` on. A line ends with a line feed, or
/// with a carriage return and a line feed; the last line may end with the text.
pub open spec fn lines_from(s: Seq<char>, from: int) -> Seq<Seq<char>>
    decreases s.len() - from,
    via lines_from_ends
{
    if from < 0 || from >= s.len() {
        Seq::empty()
    } else {
        let e = index_from(s, '\n', from);
        if e >= s.len() {
            seq![s.skip(from)]
        } else {
            seq![strip_cr(s.subrange(from, e))] + lines_from(s, e + 1)
        }
    }
}

#[via_fn]
proof fn lines_from_ends(s: Seq<char>, from: int) {
    if from < s.len() && 0 <= from {
        lemma_index_from(s, '\n', from);
    }
}

/// The lines of a text.
pub open spec fn lines_spec(s: Seq<char>) -> Seq<Seq<char>> {
    lines_from(s, 0)
}

/// The positions at which the lines of `s` from position `from` on start.
pub open spec fn starts_from(s: Seq<char>, from: int) -> Seq<int>
    decreases s.len() - from,
    via starts_from_ends
{
    if from < 0 || from >= s.len() {
        Seq::empty()
    } else {
        let e = index_from(s, '\n', from);
        if e >= s.len() {
            seq![from]
        } else {
            seq![from] + starts_from(s, e + 1)
        }
    }
}

#[via_fn]
proof fn starts_from_ends(s: Seq<char>, from: int) {
    if from < s.len() && 0 <= from {
        lemma_index_from(s, '\n', from);
    }
}

/// The byte offsets at which the lines of `s` start, where `s` begins at `base`.
pub open spec fn line_offsets(s: Seq<char>, base: int) -> Seq<int> {
    starts_from(s, 0).map_values(|p: int| base + blen(s.take(p)))
}

/// The bytes that a run of lines takes when each is followed by one line feed.
pub open spec fn lines_blen(lines: Seq<Seq<char>>) -> nat
    decreases lines.len(),
{
    if lines.len() == 0 {
        0
    } else {
        blen(lines[0]) + 1 + lines_blen(lines.drop_first())
    }
}

/// The number that a run of decimal digits stands for.
pub open spec fn digits_value(s: Seq<char>) -> nat
    decreases s.len(),
{
    if s.len() == 0 {
        0
    } else {
        digits_value(s.drop_last()) * 10 + digit_value(s.last())
    }
}

/// The value of one decimal digit.
pub open spec fn digit_value(c: char) -> nat {
    (c as u32 - '0' as u32) as nat
}

/// An ASCII decimal digit.
pub open spec fn is_digit(c: char) -> bool {
    '0' <= c <= '9'
}

/// The position of the first character at or after `from` that is no digit.
pub open spec fn digits_end(s: Seq<char>, from: int) -> int
    decreases s.len() - from,
{
    if from >= s.len() || !is_digit(s[from]) {
        from
    } else {
        digits_end(s, from + 1)
    }
}

// ---------------------------------------------------------------------------
// Facts about the model.
// ---------------------------------------------------------------------------

/// The first `c` at or after `from`: nothing before it is a `c`.
pub proof fn lemma_index_from(s: Seq<char>, c: char, from: int)
    requires
        0 <= from <= s.len(),
    ensures
        from <= index_from(s, c, from) <= s.len(),
        index_from(s, c, from) < s.len() ==> s[index_from(s, c, from)] == c,
        forall|k: int| from <= k < index_from(s, c, from) ==> s[k] != c,
    decreases s.len() - from,
{
    if from < s.len() && s[from] != c {
        lemma_index_from(s, c, from + 1);
    }
}

/// `match_from` is the least position at or after `from` where `pat` stands.
pub proof fn lemma_match_from(s: Seq<char>, pat: Seq<char>, from: int)
    requires
        0 <= from <= s.len() + 1,
    ensures
        from <= match_from(s, pat, from) <= s.len() + 1,
        match_from(s, pat, from) <= s.len() ==> matches_at(s, pat, match_from(s, pat, from)),
        forall|k: int| from <= k < match_from(s, pat, from) ==> !matches_at(s, pat, k),
    decreases s.len() + 1 - from,
{
    if from <= s.len() && !matches_at(s, pat, from) {
        lemma_match_from(s, pat, from + 1);
    }
}

/// UTF-8 encodes a concatenation piece by piece.
pub proof fn lemma_encode_concat(a: Seq<char>, b: Seq<char>)
    ensures
        encode_utf8(a + b) == encode_utf8(a) + encode_utf8(b),
    decreases a.len(),
{
    if a.len() == 0 {
        assert(a + b =~= b);
        assert(encode_utf8(a) + encode_utf8(b) =~= encode_utf8(b));
    } else {
        assert((a + b).drop_first() =~= a.drop_first() + b);
        lemma_encode_concat(a.drop_first(), b);
        assert(encode_scalar(a[0] as u32) + (encode_utf8(a.drop_first()) + encode_utf8(b))
            =~= (encode_scalar(a[0] as u32) + encode_utf8(a.drop_first())) + encode_utf8(b));
    }
}

/// Byte lengths add up.
pub broadcast proof fn lemma_blen_concat(a: Seq<char>, b: Seq<char>)
    ensures
        #[trigger] blen(a + b) == blen(a) + blen(b),
{
    lemma_encode_concat(a, b);
}

/// The byte length of a sequence of one character.
pub proof fn lemma_blen_one(c: char)
    ensures
        blen(seq![c]) == encode_scalar(c as u32).len(),
        1 <= blen(seq![c]) <= 4,
        c <= '\u{7F}' ==> blen(seq![c]) == 1,
{
    let s = seq![c];
    assert(s.drop_first() =~= Seq::<char>::empty());
    assert(encode_utf8(s.drop_first()) =~= Seq::<u8>::empty());
    assert(encode_utf8(s) =~= encode_scalar(c as u32));
}

/// Splitting a sequence at `i` splits its byte length.
pub proof fn lemma_blen_split(s: Seq<char>, i: int)
    requires
        0 <= i <= s.len(),
    ensures
        blen(s) == blen(s.take(i)) + blen(s.skip(i)),
{
    assert(s =~= s.take(i) + s.skip(i));
    lemma_blen_concat(s.take(i), s.skip(i));
}

/// The byte length of a middle part fits between its ends.
pub proof fn lemma_blen_subrange(s: Seq<char>, i: int, j: int)
    requires
        0 <= i <= j <= s.len(),
    ensures
        blen(s.take(j)) == blen(s.take(i)) + blen(s.subrange(i, j)),
        blen(s.subrange(i, j)) <= blen(s),
        blen(s.take(i)) <= blen(s),
        blen(s.take(j)) <= blen(s),
{
    assert(s.take(j) =~= s.take(i) + s.subrange(i, j));
    lemma_blen_concat(s.take(i), s.subrange(i, j));
    lemma_blen_split(s, j);
    lemma_blen_split(s, i);
}

/// A string has at least as many bytes as characters.
pub proof fn lemma_blen_ge_len(s: Seq<char>)
    ensures
        blen(s) >= s.len(),
    decreases s.len(),
{
    if s.len() > 0 {
        lemma_blen_ge_len(s.drop_first());
        lemma_blen_one(s[0]);
        assert(s =~= seq![s[0]] + s.drop_first());
        lemma_blen_concat(seq![s[0]], s.drop_first());
    } else {
        assert(encode_utf8(s) =~= Seq::<u8>::empty());
    }
}

/// An ASCII string has as many bytes as characters.
pub proof fn lemma_blen_ascii(s: Seq<char>)
    requires
        forall|i: int| 0 <= i < s.len() ==> s[i] <= '\u{7F}',
    ensures
        blen(s) == s.len(),
    decreases s.len(),
{
    if s.len() > 0 {
        lemma_blen_ascii(s.drop_first());
        lemma_blen_one(s[0]);
        assert(s =~= seq![s[0]] + s.drop_first());
        lemma_blen_concat(seq![s[0]], s.drop_first());
    } else {
        assert(encode_utf8(s) =~= Seq::<u8>::empty());
    }
}

/// Where the trimmed text ends: white space follows, none stands just before.
pub proof fn lemma_trimmed_len(s: Seq<char>)
    ensures
        0 <= trimmed_len(s) <= s.len(),
        trimmed_len(s) > 0 ==> !is_ws(s[trimmed_len(s) - 1]),
        forall|k: int| trimmed_len(s) <= k < s.len() ==> is_ws(s[k]),
    decreases s.len(),
{
    if s.len() > 0 && is_ws(s.last()) {
        lemma_trimmed_len(s.drop_last());
        let n = trimmed_len(s.drop_last());
        assert forall|k: int| n <= k < s.len() implies is_ws(s[k]) by {
            if k < s.len() - 1 {
                assert(s.drop_last()[k] == s[k]);
            }
        }
    }
}

/// Where the text proper starts: white space stands before, none at the place.
pub proof fn lemma_leading_ws(s: Seq<char>)
    ensures
        0 <= leading_ws(s) <= s.len(),
        leading_ws(s) < s.len() ==> !is_ws(s[leading_ws(s)]),
        forall|k: int| 0 <= k < leading_ws(s) ==> is_ws(s[k]),
    decreases s.len(),
{
    if s.len() > 0 && is_ws(s[0]) {
        lemma_leading_ws(s.drop_first());
        let n = leading_ws(s.drop_first());
        assert forall|k: int| 0 <= k < n + 1 implies is_ws(s[k]) by {
            if k > 0 {
                assert(s.drop_first()[k - 1] == s[k]);
            }
        }
    }
}

/// The place where the trimmed text ends is the only one of its kind.
proof fn lemma_trimmed_len_unique(s: Seq<char>, n: int)
    requires
        0 <= n <= s.len(),
        n > 0 ==> !is_ws(s[n - 1]),
        forall|k: int| n <= k < s.len() ==> is_ws(s[k]),
    ensures
        n == trimmed_len(s),
{
    lemma_trimmed_len(s);
}

proof fn lemma_leading_ws_unique(s: Seq<char>, n: int)
    requires
        0 <= n <= s.len(),
        n < s.len() ==> !is_ws(s[n]),
        forall|k: int| 0 <= k < n ==> is_ws(s[k]),
    ensures
        n == leading_ws(s),
{
    lemma_leading_ws(s);
}

/// Trimming takes away characters, so it takes away bytes.
pub proof fn lemma_trim_blen(s: Seq<char>)
    ensures
        blen(trim_end_spec(s)) <= blen(s),
        blen(trim_start_spec(s)) + blen(s.take(leading_ws(s))) == blen(s),
        blen(trim_spec(s)) <= blen(trim_start_spec(s)),
        blen(trim_spec(s)) <= blen(s),
{
    lemma_trimmed_len(s);
    lemma_leading_ws(s);
    lemma_blen_split(s, trimmed_len(s));
    lemma_blen_split(s, leading_ws(s));
    let t = trim_start_spec(s);
    lemma_trimmed_len(t);
    lemma_blen_split(t, trimmed_len(t));
}

/// Each line stands where it starts.
pub proof fn lemma_lines_stand(s: Seq<char>, from: int)
    requires
        0 <= from <= s.len(),
    ensures
        starts_from(s, from).len() == lines_from(s, from).len(),
        forall|k: int|
            #![trigger starts_from(s, from)[k]]
            #![trigger lines_from(s, from)[k]]
            0 <= k < starts_from(s, from).len() ==> {
                let p = starts_from(s, from)[k];
                let line = lines_from(s, from)[k];
                &&& from <= p <= p + line.len() <= s.len()
                &&& line == s.subrange(p, p + line.len())
            },
    decreases s.len() - from,
{
    if from < s.len() {
        lemma_index_from(s, '\n', from);
        let e = index_from(s, '\n', from);
        let starts = starts_from(s, from);
        let all = lines_from(s, from);
        if e >= s.len() {
            assert(s.skip(from) =~= s.subrange(from, s.len() as int));
        } else {
            lemma_lines_stand(s, e + 1);
            let line = strip_cr(s.subrange(from, e));
            assert(line =~= s.subrange(from, from + line.len()));
            assert forall|k: int|
                #![trigger starts[k]]
                #![trigger all[k]]
                0 <= k < starts.len() implies {
                &&& from <= starts[k] <= starts[k] + all[k].len() <= s.len()
                &&& all[k] == s.subrange(starts[k], starts[k] + all[k].len())
            } by {
                if k > 0 {
                    assert(starts[k] == starts_from(s, e + 1)[k - 1]);
                    assert(all[k] == lines_from(s, e + 1)[k - 1]);
                }
            }
        }
    }
}

/// The bytes of a run of lines, split after the first `n`.
pub proof fn lemma_lines_blen_split(lines: Seq<Seq<char>>, n: int)
    requires
        0 <= n <= lines.len(),
    ensures
        lines_blen(lines) == lines_blen(lines.take(n)) + lines_blen(lines.skip(n)),
    decreases n,
{
    if n == 0 {
        assert(lines.skip(0) =~= lines);
    } else {
        lemma_lines_blen_split(lines.drop_first(), n - 1);
        assert(lines.take(n).drop_first() =~= lines.drop_first().take(n - 1));
        assert(lines.drop_first().skip(n - 1) =~= lines.skip(n));
    }
}

/// One line more takes its bytes and one line feed more.
pub proof fn lemma_lines_blen_step(lines: Seq<Seq<char>>, n: int)
    requires
        0 <= n < lines.len(),
    ensures
        lines_blen(lines.take(n + 1)) == lines_blen(lines.take(n)) + blen(lines[n]) + 1,
        lines_blen(lines.take(n + 1)) <= lines_blen(lines),
{
    lemma_lines_blen_split(lines.take(n + 1), n);
    assert(lines.take(n + 1).take(n) =~= lines.take(n));
    let one = lines.take(n + 1).skip(n);
    assert(one =~= seq![lines[n]]);
    assert(one.drop_first() =~= Seq::<Seq<char>>::empty());
    assert(lines_blen(one.drop_first()) == 0);
    lemma_lines_blen_split(lines, n + 1);
}

/// The digits of a run end within the text, and all of the run are digits.
pub proof fn lemma_digits_end(s: Seq<char>, from: int)
    requires
        0 <= from <= s.len(),
    ensures
        from <= digits_end(s, from) <= s.len(),
        forall|k: int| from <= k < digits_end(s, from) ==> is_digit(s[k]),
        digits_end(s, from) < s.len() ==> !is_digit(s[digits_end(s, from)]),
    decreases s.len() - from,
{
    if from < s.len() && is_digit(s[from]) {
        lemma_digits_end(s, from + 1);
    }
}

/// Trimming takes white space away from the ends of a text and leaves the text between.
pub proof fn law_trimming(front: Seq<char>, text: Seq<char>, back: Seq<char>)
    requires
        forall|k: int| 0 <= k < front.len() ==> is_ws(#[trigger] front[k]),
        forall|k: int| 0 <= k < back.len() ==> is_ws(#[trigger] back[k]),
        text.len() > 0 && !is_ws(text[0]) && !is_ws(text.last()),
    ensures
        trim_spec(front + text + back) == text,
        trim_end_spec(front + text + back) == front + text,
        trim_start_spec(front + text + back) == text + back,
{
    let all = front + text + back;
    let n = (front.len() + text.len()) as int;
    assert(all[n - 1] == text.last());
    assert forall|k: int| n <= k < all.len() implies is_ws(all[k]) by {
        assert(all[k] == back[k - n]);
    }
    lemma_trimmed_len_unique(all, n);
    assert(all.take(n) =~= front + text);
    assert(all[front.len() as int] == text[0]);
    assert forall|k: int| 0 <= k < front.len() implies is_ws(all[k]) by {
        assert(all[k] == front[k]);
    }
    lemma_leading_ws_unique(all, front.len() as int);
    let rest = text + back;
    assert(all.skip(front.len() as int) =~= rest);
    assert forall|k: int| text.len() <= k < rest.len() implies is_ws(rest[k]) by {
        assert(rest[k] == back[k - text.len()]);
    }
    assert(rest[text.len() - 1] == text.last());
    lemma_trimmed_len_unique(rest, text.len() as int);
    assert(rest.take(text.len() as int) =~= text);
}

/// Nothing is left of a text of white space.
pub proof fn law_trimming_white_space(s: Seq<char>)
    requires
        forall|k: int| 0 <= k < s.len() ==> is_ws(#[trigger] s[k]),
    ensures
        trim_spec(s).len() == 0,
        trim_end_spec(s).len() == 0,
        trim_start_spec(s).len() == 0,
{
    lemma_trimmed_len_unique(s, 0);
    lemma_leading_ws_unique(s, s.len() as int);
    assert(s.skip(s.len() as int) =~= Seq::empty());
    assert(trimmed_len(Seq::<char>::empty()) == 0);
}

/// Among the ASCII characters the space, the tabs, the feeds and the carriage return are white
/// space, and no others.
pub proof fn law_white_space(c: char)
    ensures
        c <= '\u{7F}' ==> (is_ws(c) <==> c == ' ' || c == '\t' || c == '\n' || c == '\u{B}' || c
            == '\u{C}' || c == '\r'),
        is_ws('\u{A0}'),
        is_ws('\u{2003}'),
        is_ws('\u{3000}'),
        !is_ws('\u{200B}'),
{
}

/// A digit behind others counts one, and the others count ten times what they did.
pub proof fn law_decimal_digits(digits: Seq<char>)
    ensures
        digits_value(Seq::empty()) == 0,
        digits_value(digits.push('0')) == digits_value(digits) * 10,
        digits_value(digits.push('1')) == digits_value(digits) * 10 + 1,
        digits_value(digits.push('2')) == digits_value(digits) * 10 + 2,
        digits_value(digits.push('3')) == digits_value(digits) * 10 + 3,
        digits_value(digits.push('4')) == digits_value(digits) * 10 + 4,
        digits_value(digits.push('5')) == digits_value(digits) * 10 + 5,
        digits_value(digits.push('6')) == digits_value(digits) * 10 + 6,
        digits_value(digits.push('7')) == digits_value(digits) * 10 + 7,
        digits_value(digits.push('8')) == digits_value(digits) * 10 + 8,
        digits_value(digits.push('9')) == digits_value(digits) * 10 + 9,
        forall|c: char|
            #[trigger] is_digit(c) <==> c == '0' || c == '1' || c == '2' || c == '3' || c == '4'
                || c == '5' || c == '6' || c == '7' || c == '8' || c == '9',
{
    assert(digits.push('0').drop_last() =~= digits);
    assert(digits.push('1').drop_last() =~= digits);
    assert(digits.push('2').drop_last() =~= digits);
    assert(digits.push('3').drop_last() =~= digits);
    assert(digits.push('4').drop_last() =~= digits);
    assert(digits.push('5').drop_last() =~= digits);
    assert(digits.push('6').drop_last() =~= digits);
    assert(digits.push('7').drop_last() =~= digits);
    assert(digits.push('8').drop_last() =~= digits);
    assert(digits.push('9').drop_last() =~= digits);
}

// ---------------------------------------------------------------------------
// Executable operations.
// ---------------------------------------------------------------------------

/// The characters of a string.
pub fn chars_of(s: &str) -> (r: Vec<char>)
    ensures
        r@ == s@,
{
    let mut v: Vec<char> = Vec::new();
    for c in it: s.chars()
        invariant
            it.seq() == s@,
            v@ == s@.take(it.index()),
    {
        v.push(c);
    }
    assert(s@.take(s@.len() as int) =~= s@);
    v
}

/// The string of the characters from `from` to `to`.
pub fn string_of(cs: &[char], from: usize, to: usize) -> (r: String)
    requires
        from <= to <= cs@.len(),
    ensures
        r@ == cs@.subrange(from as int, to as int),
{
    let mut s = String::new();
    let mut i: usize = from;
    while i < to
        invariant
            from <= i <= to <= cs@.len(),
            s@ == cs@.subrange(from as int, i as int),
        decreases to - i,
    {
        s.push(cs[i]);
        i += 1;
        assert(cs@.subrange(from as int, i as int) =~= cs@.subrange(from as int, i - 1).push(cs@[i - 1]));
    }
    s
}

/// The length of a string in bytes.
pub fn byte_len(s: &str) -> (r: usize)
    ensures
        r == blen(s@),
{
    s.as_bytes().len()
}

/// Whether the character has the Unicode property `White_Space`.
pub fn is_whitespace(c: char) -> (r: bool)
    ensures
        r == is_ws(c),
{
    ('\u{0009}' <= c && c <= '\u{000D}') || c == '\u{0020}' || c == '\u{0085}' || c == '\u{00A0}'
        || c == '\u{1680}' || ('\u{2000}' <= c && c <= '\u{200A}') || c == '\u{2028}'
        || c == '\u{2029}' || c == '\u{202F}' || c == '\u{205F}' || c == '\u{3000}'
}

/// The string without the white space at its end.
pub fn trim_end(s: &str) -> (r: &str)
    ensures
        r@ == trim_end_spec(s@),
{
    let cs = chars_of(s);
    let mut n: usize = cs.len();
    while n > 0 && is_whitespace(cs[n - 1])
        invariant
            n <= cs@.len(),
            cs@ == s@,
            forall|k: int| n <= k < s@.len() ==> is_ws(s@[k]),
        decreases n,
    {
        n -= 1;
    }
    proof {
        lemma_trimmed_len_unique(s@, n as int);
        assert(s@.subrange(0, n as int) =~= s@.take(n as int));
    }
    s.substring_char(0, n)
}

/// The string without the white space at its start.
pub fn trim_start(s: &str) -> (r: &str)
    ensures
        r@ == trim_start_spec(s@),
{
    let cs = chars_of(s);
    let mut n: usize = 0;
    while n < cs.len() && is_whitespace(cs[n])
        invariant
            n <= cs@.len(),
            cs@ == s@,
            forall|k: int| 0 <= k < n ==> is_ws(s@[k]),
        decreases cs.len() - n,
    {
        n += 1;
    }
    proof {
        lemma_leading_ws_unique(s@, n as int);
        assert(s@.subrange(n as int, s@.len() as int) =~= s@.skip(n as int));
    }
    s.substring_char(n, cs.len())
}

/// The string without the white space at either end.
pub fn trim(s: &str) -> (r: &str)
    ensures
        r@ == trim_spec(s@),
{
    trim_end(trim_start(s))
}

/// Whether the string ends in white space.
pub fn ends_in_whitespace(s: &str) -> (r: bool)
    ensures
        r == ends_in_ws(s@),
{
    let n: usize = s.unicode_len();
    n > 0 && is_whitespace(s.get_char(n - 1))
}

/// The position of the last white space character.
pub fn find_last_whitespace(s: &str) -> (r: Option<usize>)
    ensures
        match r {
            Some(i) => i == last_ws(s@) && i < s@.len(),
            None => last_ws(s@) == -1,
        },
{
    let cs = chars_of(s);
    let mut n: usize = cs.len();
    assert(s@.take(n as int) =~= s@);
    while n > 0
        invariant
            n <= cs@.len(),
            cs@ == s@,
            last_ws(s@) == last_ws(s@.take(n as int)),
        decreases n,
    {
        if is_whitespace(cs[n - 1]) {
            return Some(n - 1);
        }
        assert(s@.take(n as int).drop_last() =~= s@.take(n - 1));
        n -= 1;
    }
    None
}

/// The text behind the last white space.
pub fn token_at_end(s: &str) -> (r: &str)
    ensures
        r@ == last_token(s@),
{
    let n: usize = s.unicode_len();
    let from: usize = match find_last_whitespace(s) {
        Some(i) => i + 1,
        None => 0,
    };
    assert(s@.subrange(from as int, n as int) =~= s@.skip(from as int));
    s.substring_char(from, n)
}

/// Whether two runs of characters are the same.
pub fn same_chars(a: &str, b: &str) -> (r: bool)
    ensures
        r == (a@ == b@),
{
    let x = chars_of(a);
    let y = chars_of(b);
    if x.len() != y.len() {
        return false;
    }
    let mut i: usize = 0;
    while i < x.len()
        invariant
            i <= x@.len(),
            x@.len() == y@.len(),
            x@ == a@,
            y@ == b@,
            forall|k: int| 0 <= k < i ==> x@[k] == y@[k],
        decreases x.len() - i,
    {
        if x[i] != y[i] {
            return false;
        }
        i += 1;
    }
    assert(a@ =~= b@);
    true
}

/// Whether `pat` stands in `s` at position `i`.
pub fn chars_match_at(s: &[char], pat: &[char], i: usize) -> (r: bool)
    ensures
        r == matches_at(s@, pat@, i as int),
{
    if i > s.len() || pat.len() > s.len() - i {
        return false;
    }
    let mut k: usize = 0;
    while k < pat.len()
        invariant
            k <= pat@.len(),
            i + pat@.len() <= s.len(),
            forall|j: int| 0 <= j < k ==> s@[i + j] == pat@[j],
        decreases pat.len() - k,
    {
        if s[i + k] != pat[k] {
            assert(s@.subrange(i as int, i + pat@.len())[k as int] != pat@[k as int]);
            return false;
        }
        k += 1;
    }
    assert(s@.subrange(i as int, i + pat@.len()) =~= pat@);
    true
}

/// The first position at or after `from` where `pat` stands in `s`.
pub fn chars_find(s: &[char], pat: &[char], from: usize) -> (r: Option<usize>)
    requires
        from <= s@.len(),
    ensures
        match r {
            Some(i) => i == match_from(s@, pat@, from as int) && i <= s@.len(),
            None => match_from(s@, pat@, from as int) == s@.len() + 1,
        },
{
    let mut i: usize = from;
    loop
        invariant
            from <= i <= s@.len(),
            match_from(s@, pat@, from as int) == match_from(s@, pat@, i as int),
        decreases s@.len() - i,
    {
        if chars_match_at(s, pat, i) {
            return Some(i);
        }
        if i == s.len() {
            assert(match_from(s@, pat@, i + 1) == s@.len() + 1);
            return None;
        }
        i += 1;
    }
}

/// Whether `pat` stands anywhere in `s`.
pub fn contains(s: &str, pat: &str) -> (r: bool)
    ensures
        r == contains_spec(s@, pat@),
{
    let cs = chars_of(s);
    let ps = chars_of(pat);
    proof {
        lemma_match_from(s@, pat@, 0);
        if match_from(s@, pat@, 0) == s@.len() + 1 {
            assert forall|i: int| !matches_at(s@, pat@, i) by {
                if 0 <= i < s@.len() + 1 {
                    assert(!matches_at(s@, pat@, i));
                }
            }
        }
    }
    match chars_find(&cs, &ps, 0) {
        Some(_) => true,
        None => false,
    }
}

/// Whether `c` stands anywhere in `s`.
pub fn contains_char(s: &str, c: char) -> (r: bool)
    ensures
        r == s@.contains(c),
{
    let cs = chars_of(s);
    let mut i: usize = 0;
    while i < cs.len()
        invariant
            i <= cs@.len(),
            cs@ == s@,
            forall|k: int| 0 <= k < i ==> s@[k] != c,
        decreases cs.len() - i,
    {
        if cs[i] == c {
            assert(s@[i as int] == c);
            return true;
        }
        i += 1;
    }
    false
}

/// Whether `s` begins with `pat`.
pub fn starts_with(s: &str, pat: &str) -> (r: bool)
    ensures
        r == starts_with_spec(s@, pat@),
{
    let cs = chars_of(s);
    let ps = chars_of(pat);
    chars_match_at(&cs, &ps, 0)
}

/// Whether `s` ends with `pat`.
pub fn ends_with(s: &str, pat: &str) -> (r: bool)
    ensures
        r == ends_with_spec(s@, pat@),
{
    let cs = chars_of(s);
    let ps = chars_of(pat);
    if ps.len() > cs.len() {
        return false;
    }
    chars_match_at(&cs, &ps, cs.len() - ps.len())
}

/// The lines of a text, without their line ends.
pub fn lines(s: &str) -> (r: Vec<&str>)
    ensures
        r.deep_view() == lines_spec(s@),
{
    let cs = chars_of(s);
    let n: usize = cs.len();
    let mut out: Vec<&str> = Vec::new();
    let mut from: usize = 0;
    assert(out.deep_view() + lines_from(s@, 0) =~= lines_spec(s@));
    while from < n
        invariant
            from <= n,
            n == s@.len(),
            cs@ == s@,
            out.deep_view() + lines_from(s@, from as int) == lines_spec(s@),
        decreases n - from,
    {
        let mut e: usize = from;
        while e < n && cs[e] != '\n'
            invariant
                from <= e <= n,
                n == s@.len(),
                cs@ == s@,
                index_from(s@, '\n', from as int) == index_from(s@, '\n', e as int),
            decreases n - e,
        {
            e += 1;
        }
        let ghost before = out.deep_view();
        if e == n {
            assert(s@.subrange(from as int, n as int) =~= s@.skip(from as int));
            let line = s.substring_char(from, n);
            out.push(line);
            assert(out.deep_view() =~= before.push(s@.skip(from as int)));
            from = n;
            assert(lines_from(s@, n as int) =~= Seq::empty());
        } else {
            let stop: usize = if e > from && cs[e - 1] == '\r' {
                e - 1
            } else {
                e
            };
            let line = s.substring_char(from, stop);
            let ghost raw = s@.subrange(from as int, e as int);
            assert(line@ =~= strip_cr(raw));
            out.push(line);
            assert(out.deep_view() =~= before.push(strip_cr(raw)));
            let ghost prev = from;
            from = e + 1;
            assert(before.push(strip_cr(raw)) + lines_from(s@, from as int) =~= before + (seq![
                strip_cr(raw),
            ] + lines_from(s@, from as int)));
        }
    }
    assert(out.deep_view() + lines_from(s@, n as int) =~= out.deep_view());
    out
}

/// The lines of a string that begins at `base`, and the byte offsets at which they
/// start.
pub fn lines_at(s: &str, base: usize) -> (r: (Vec<&str>, Vec<usize>))
    requires
        base + blen(s@) <= usize::MAX,
    ensures
        r.0.deep_view() == lines_spec(s@),
        r.1@.map_values(|n: usize| n as int) == line_offsets(s@, base as int),
{
    let all = lines(s);
    let cs = chars_of(s);
    let n: usize = cs.len();
    let mut starts: Vec<usize> = Vec::new();
    let mut from: usize = 0;
    let mut at: usize = base;
    let ghost want = line_offsets(s@, base as int);
    let ghost place = |p: int| base + blen(s@.take(p));
    assert(s@.take(0) =~= Seq::empty());
    assert(encode_utf8(s@.take(0)) =~= Seq::<u8>::empty());
    assert(starts@.map_values(|n: usize| n as int) + starts_from(s@, 0).map_values(place) =~= want);
    while from < n
        invariant
            from <= n,
            n == s@.len(),
            cs@ == s@,
            base + blen(s@) <= usize::MAX,
            place == (|p: int| base + blen(s@.take(p))),
            at == base + blen(s@.take(from as int)),
            starts@.map_values(|n: usize| n as int) + starts_from(s@, from as int).map_values(place)
                == want,
        decreases n - from,
    {
        let mut e: usize = from;
        while e < n && cs[e] != '\n'
            invariant
                from <= e <= n,
                n == s@.len(),
                cs@ == s@,
                index_from(s@, '\n', from as int) == index_from(s@, '\n', e as int),
            decreases n - e,
        {
            e += 1;
        }
        let ghost before = starts@.map_values(|n: usize| n as int);
        let ghost rest = starts_from(s@, e + 1);
        starts.push(at);
        assert(starts@.map_values(|n: usize| n as int) =~= before.push(place(from as int)));
        let next: usize = if e < n {
            e + 1
        } else {
            n
        };
        assert(starts_from(s@, from as int) =~= seq![from as int] + rest);
        assert(rest =~= starts_from(s@, next as int));
        assert(starts_from(s@, from as int).map_values(place) =~= seq![place(from as int)]
            + rest.map_values(place));
        assert(before + (seq![place(from as int)] + rest.map_values(place)) =~= before.push(
            place(from as int),
        ) + rest.map_values(place));
        proof {
            lemma_blen_subrange(s@, from as int, next as int);
            lemma_blen_split(s@, next as int);
        }
        at = at + byte_len(s.substring_char(from, next));
        from = next;
    }
    assert(starts_from(s@, n as int).map_values(place) =~= Seq::<int>::empty());
    assert(starts@.map_values(|n: usize| n as int) =~= want);
    (all, starts)
}

/// The number that the digits from `from` to `to` stand for, if it fits.
pub fn parse_number_at(cs: &[char], from: usize, to: usize) -> (r: Option<usize>)
    requires
        from <= to <= cs@.len(),
        forall|k: int| from <= k < to ==> is_digit(cs@[k]),
    ensures
        match r {
            Some(n) => n == digits_value(cs@.subrange(from as int, to as int)),
            None => digits_value(cs@.subrange(from as int, to as int)) > usize::MAX,
        },
{
    let mut value: usize = 0;
    let mut i: usize = from;
    assert(cs@.subrange(from as int, from as int) =~= Seq::empty());
    while i < to
        invariant
            from <= i <= to <= cs@.len(),
            forall|k: int| from <= k < to ==> is_digit(cs@[k]),
            value == digits_value(cs@.subrange(from as int, i as int)),
        decreases to - i,
    {
        let d: usize = (cs[i] as u32 - '0' as u32) as usize;
        let ghost next = cs@.subrange(from as int, i + 1);
        assert(next.drop_last() =~= cs@.subrange(from as int, i as int));
        assert(digits_value(next) == value * 10 + d);
        let step = match value.checked_mul(10) {
            Some(t) => t.checked_add(d),
            None => None,
        };
        match step {
            Some(v) => {
                value = v;
                i += 1;
            },
            None => {
                proof {
                    lemma_digits_grow(cs@.subrange(from as int, to as int), i + 1 - from);
                    assert(cs@.subrange(from as int, to as int).take(i + 1 - from) =~= next);
                }
                return None;
            },
        }
    }
    Some(value)
}

/// More digits stand for no smaller number.
proof fn lemma_digits_grow(s: Seq<char>, n: int)
    requires
        0 <= n <= s.len(),
    ensures
        digits_value(s.take(n)) <= digits_value(s),
    decreases s.len() - n,
{
    if n == s.len() {
        assert(s.take(n) =~= s);
    } else {
        lemma_digits_grow(s.drop_last(), n);
        assert(s.drop_last().take(n) =~= s.take(n));
    }
}

} // verus!

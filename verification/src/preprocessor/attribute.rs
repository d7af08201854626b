//! Lines that set or unset an attribute: `:name: value`, `:!name:` and `:name!:`.

use crate::attributes::{AttributeValue, DocumentAttributes, ValueV};
use crate::text::{
    chars_of, index_from, is_whitespace, is_ws, leading_ws, lemma_index_from, string_of, trim,
    trim_spec, trim_start_spec,
};
use std::borrow::Cow;
use vstd::prelude::*;
use vstd::string::*;

verus! {

/// A character of a name.
pub open spec fn is_name_char(c: char) -> bool {
    'a' <= c <= 'z' || 'A' <= c <= 'Z' || '0' <= c <= '9' || c == '_' || c == '-'
}

/// A name of an attribute.
pub open spec fn is_name(s: Seq<char>) -> bool {
    s.len() > 0 && s[0] != '-' && forall|k: int| 0 <= k < s.len() ==> is_name_char(#[trigger] s[k])
}

/// What an attribute line does to an attribute: `None` unsets it.
pub open spec fn attribute_line(line: Seq<char>) -> Option<(Seq<char>, Option<ValueV>)> {
    let end = index_from(line, ':', 1);
    let inner = line.subrange(1, end);
    let rest = line.skip(end + 1);
    let value = trim_spec(rest);
    if line.len() == 0 || line[0] != ':' || end >= line.len() || (rest.len() > 0 && !is_ws(rest[0]))
    {
        None
    } else if is_name(inner) {
        Some(
            (
                inner,
                Some(
                    if value.len() == 0 {
                        ValueV::Flag(true)
                    } else {
                        ValueV::Text(value)
                    },
                ),
            ),
        )
    } else if inner.len() > 0 && inner[0] == '!' && is_name(inner.drop_first()) {
        Some((inner.drop_first(), None))
    } else if inner.len() > 0 && inner.last() == '!' && is_name(inner.drop_last()) {
        Some((inner.drop_last(), None))
    } else {
        None
    }
}

/// The attributes after an attribute line. A line that is none changes nothing.
pub open spec fn after_attribute_line(
    attributes: Map<Seq<char>, (ValueV, bool)>,
    line: Seq<char>,
) -> Map<Seq<char>, (ValueV, bool)> {
    match attribute_line(line) {
        Some((name, Some(value))) => attributes.insert(name, (value, true)),
        Some((name, None)) => attributes.remove(name),
        None => attributes,
    }
}

proof fn lemma_no_colon(name: Seq<char>)
    requires
        is_name(name),
    ensures
        forall|k: int| 0 <= k < name.len() ==> (#[trigger] name[k]) != ':' && name[k] != '!',
{
    assert forall|k: int| 0 <= k < name.len() implies (#[trigger] name[k]) != ':' && name[k]
        != '!' by {
        assert(is_name_char(name[k]));
    }
}

proof fn lemma_colon_at(line: Seq<char>, end: int)
    requires
        1 <= end < line.len(),
        line[end] == ':',
        forall|k: int| 1 <= k < end ==> line[k] != ':',
    ensures
        index_from(line, ':', 1) == end,
{
    lemma_index_from(line, ':', 1);
    let found = index_from(line, ':', 1);
    if found < end {
        assert(line[found] != ':');
    }
}

/// `:name: value` gives the attribute its value, `:name:` sets it, and `:!name:` and
/// `:name!:` take it away; no other attribute changes.
pub proof fn law_attribute_lines(
    attributes: Map<Seq<char>, (ValueV, bool)>,
    name: Seq<char>,
    value: Seq<char>,
)
    requires
        is_name(name),
        value.len() > 0 && !is_ws(value[0]) && !is_ws(value.last()),
    ensures
        after_attribute_line(attributes, seq![':'] + name + seq![':', ' '] + value)
            == attributes.insert(name, (ValueV::Text(value), true)),
        after_attribute_line(attributes, seq![':'] + name + seq![':']) == attributes.insert(
            name,
            (ValueV::Flag(true), true),
        ),
        after_attribute_line(attributes, seq![':', '!'] + name + seq![':']) == attributes.remove(
            name,
        ),
        after_attribute_line(attributes, seq![':'] + name + seq!['!', ':']) == attributes.remove(
            name,
        ),
{
    let n = name.len() as int;
    lemma_no_colon(name);
    let with_value = seq![':'] + name + seq![':', ' '] + value;
    assert forall|k: int| 1 <= k < n + 1 implies with_value[k] != ':' by {
        assert(with_value[k] == name[k - 1]);
    }
    lemma_colon_at(with_value, n + 1);
    assert(with_value.subrange(1, n + 1) =~= name);
    let rest = with_value.skip(n + 2);
    assert(rest =~= seq![' '] + value);
    assert(rest.drop_first() =~= value);
    reveal_with_fuel(leading_ws, 2);
    assert(leading_ws(rest) == 1);
    assert(trim_start_spec(rest) =~= value);
    assert(trim_spec(rest) =~= value);
    let set = seq![':'] + name + seq![':'];
    assert forall|k: int| 1 <= k < n + 1 implies set[k] != ':' by {
        assert(set[k] == name[k - 1]);
    }
    lemma_colon_at(set, n + 1);
    assert(set.subrange(1, n + 1) =~= name);
    assert(set.skip(n + 2) =~= Seq::empty());
    assert(trim_start_spec(set.skip(n + 2)) =~= Seq::empty());
    assert(trim_spec(set.skip(n + 2)) =~= Seq::empty());
    let front = seq![':', '!'] + name + seq![':'];
    assert forall|k: int| 1 <= k < n + 2 implies front[k] != ':' by {
        if k > 1 {
            assert(front[k] == name[k - 2]);
        }
    }
    lemma_colon_at(front, n + 2);
    let inner = front.subrange(1, n + 2);
    assert(inner[0] == '!');
    assert(!is_name_char(inner[0]));
    assert(inner.drop_first() =~= name);
    let back = seq![':'] + name + seq!['!', ':'];
    assert forall|k: int| 1 <= k < n + 2 implies back[k] != ':' by {
        if k < n + 1 {
            assert(back[k] == name[k - 1]);
        }
    }
    lemma_colon_at(back, n + 2);
    let inner = back.subrange(1, n + 2);
    assert(inner[n] == '!');
    assert(!is_name_char(inner[n]));
    assert(inner.drop_last() =~= name);
    assert(inner[0] == name[0]);
}

/// A name is made of letters, digits, underscores and hyphens, and does not begin with a
/// hyphen: one character more makes a name of a name exactly where it is one of these.
pub proof fn law_names(name: Seq<char>, c: char)
    ensures
        !is_name(Seq::empty()),
        is_name(seq![c]) <==> ('a' <= c <= 'z' || 'A' <= c <= 'Z' || '0' <= c <= '9' || c == '_'),
        is_name(name) ==> (is_name(name.push(c)) <==> ('a' <= c <= 'z' || 'A' <= c <= 'Z' || '0'
            <= c <= '9' || c == '_' || c == '-')),
        name.len() > 0 && is_name(name.push(c)) ==> is_name(name),
{
    let more = name.push(c);
    assert(more[name.len() as int] == c);
    assert(forall|k: int| 0 <= k < name.len() ==> more[k] == #[trigger] name[k]);
    assert(seq![c][0] == c);
    if is_name(name) && is_name_char(c) {
        assert forall|k: int| 0 <= k < more.len() implies is_name_char(#[trigger] more[k]) by {
            if k < name.len() {
                assert(is_name_char(name[k]));
            }
        }
    }
    if name.len() > 0 && is_name(more) {
        assert forall|k: int| 0 <= k < name.len() implies is_name_char(#[trigger] name[k]) by {
            assert(is_name_char(more[k]));
        }
    }
}

/// Whether the characters from `from` to `to` are a name.
pub fn name_at(cs: &[char], from: usize, to: usize) -> (r: bool)
    requires
        from <= to <= cs@.len(),
    ensures
        r == is_name(cs@.subrange(from as int, to as int)),
{
    let ghost s = cs@.subrange(from as int, to as int);
    if from == to || cs[from] == '-' {
        return false;
    }
    let mut k: usize = from;
    while k < to
        invariant
            from <= k <= to <= cs@.len(),
            s == cs@.subrange(from as int, to as int),
            forall|j: int| 0 <= j < k - from ==> is_name_char(#[trigger] s[j]),
        decreases to - k,
    {
        let c = cs[k];
        if !(('a' <= c && c <= 'z') || ('A' <= c && c <= 'Z') || ('0' <= c && c <= '9') || c == '_'
            || c == '-') {
            assert(!is_name_char(s[k - from]));
            return false;
        }
        k += 1;
    }
    true
}

/// Do what an attribute line says.
pub fn parse_line(attributes: &mut DocumentAttributes<'_>, line: &str)
    ensures
        final(attributes)@ == after_attribute_line(old(attributes)@, line@),
{
    let cs = chars_of(line);
    let n: usize = cs.len();
    if n == 0 || cs[0] != ':' {
        return;
    }
    let mut end: usize = 1;
    while end < n && cs[end] != ':'
        invariant
            1 <= end <= n,
            n == cs@.len(),
            cs@ == line@,
            index_from(line@, ':', 1) == index_from(line@, ':', end as int),
        decreases n - end,
    {
        end += 1;
    }
    if end >= n {
        proof {
            lemma_index_from(line@, ':', end as int);
        }
        return;
    }
    let rest = line.substring_char(end + 1, n);
    assert(rest@ =~= line@.skip(end + 1));
    if end + 1 < n && !is_whitespace(cs[end + 1]) {
        assert(rest@[0] == cs@[end + 1]);
        return;
    }
    let ghost inner = line@.subrange(1, end as int);
    assert(cs@.subrange(1, end as int) =~= inner);
    assert(rest@.len() > 0 ==> rest@[0] == cs@[end + 1]);
    if name_at(&cs, 1, end) {
        let name = string_of(&cs, 1, end);
        let value = trim(rest);
        let held = if value.unicode_len() == 0 {
            AttributeValue::Bool(true)
        } else {
            AttributeValue::String(Cow::Owned(value.to_owned()))
        };
        attributes.insert(Cow::Owned(name), held);
        return;
    }
    if end > 1 && cs[1] == '!' {
        assert(cs@.subrange(2, end as int) =~= inner.drop_first());
        if name_at(&cs, 2, end) {
            let name = string_of(&cs, 2, end);
            attributes.remove(name.as_str());
            return;
        }
    }
    if end > 1 && cs[end - 1] == '!' {
        assert(cs@.subrange(1, end - 1) =~= inner.drop_last());
        if name_at(&cs, 1, end - 1) {
            let name = string_of(&cs, 1, end - 1);
            attributes.remove(name.as_str());
            return;
        }
    }
}

} // verus!

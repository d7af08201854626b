//! Conditional directives: `ifdef`, `ifndef`, `ifeval`, and the `endif` that closes
//! them.

use crate::attributes::{DocumentAttributes, ValueV};
use crate::preprocessor::attribute::{is_name, is_name_char, name_at};
use crate::text::{
    chars_of, index_from, lemma_index_from, same_chars, starts_with, starts_with_spec, string_of,
};
use vstd::prelude::*;
use vstd::string::*;

verus! {

/// How the names of a condition are put together.
#[derive(Clone, Copy, Debug, PartialEq, Eq, Structural)]
pub enum Operation {
    /// One of them is enough (`,`).
    Any,
    /// All of them are needed (`+`).
    All,
}

/// A condition on attributes: their names, and the text between the brackets,
/// which is kept in place of what follows.
#[derive(Debug)]
pub struct Names {
    pub target: String,
    pub names: Vec<String>,
    pub operation: Operation,
    pub content: Option<String>,
}

/// A condition.
#[derive(Debug)]
pub enum Conditional {
    /// The attributes are set.
    Ifdef(Names),
    /// The attributes are not set.
    Ifndef(Names),
    /// The expression holds.
    Ifeval(String),
}

/// What a condition on attributes is.
#[verifier::ext_equal]
pub struct NamesV {
    pub target: Seq<char>,
    pub names: Seq<Seq<char>>,
    pub operation: Operation,
    pub content: Option<Seq<char>>,
}

/// What a condition is.
#[verifier::ext_equal]
pub enum ConditionV {
    Ifdef(NamesV),
    Ifndef(NamesV),
    Ifeval(Seq<char>),
}

impl DeepView for Names {
    type V = NamesV;

    open spec fn deep_view(&self) -> NamesV {
        NamesV {
            target: self.target@,
            names: self.names.deep_view(),
            operation: self.operation,
            content: match self.content {
                Some(c) => Some(c@),
                None => None,
            },
        }
    }
}

impl DeepView for Conditional {
    type V = ConditionV;

    open spec fn deep_view(&self) -> ConditionV {
        match self {
            Conditional::Ifdef(n) => ConditionV::Ifdef(n.deep_view()),
            Conditional::Ifndef(n) => ConditionV::Ifndef(n.deep_view()),
            Conditional::Ifeval(e) => ConditionV::Ifeval(e@),
        }
    }
}

// ---------------------------------------------------------------------------
// Reading directives.
// ---------------------------------------------------------------------------

/// The pieces between separators, from `from` on.
pub open spec fn pieces_from(s: Seq<char>, c: char, from: int) -> Seq<Seq<char>>
    decreases s.len() + 1 - from,
    via pieces_from_ends
{
    let e = index_from(s, c, from);
    if from < 0 || e >= s.len() {
        seq![s.skip(from)]
    } else {
        seq![s.subrange(from, e)] + pieces_from(s, c, e + 1)
    }
}

#[via_fn]
proof fn pieces_from_ends(s: Seq<char>, c: char, from: int) {
    if 0 <= from <= s.len() {
        lemma_index_from(s, c, from);
    }
}

/// The target and the text of a directive that is written
/// `keyword::target[text]`.
pub open spec fn directive_parts(line: Seq<char>, keyword: Seq<char>) -> Option<
    (Seq<char>, Seq<char>),
> {
    let from = keyword.len() as int;
    let bracket = index_from(line, '[', from);
    if !starts_with_spec(line, keyword) || bracket >= line.len() || line.last() != ']' {
        None
    } else {
        Some((line.subrange(from, bracket), line.subrange(bracket + 1, line.len() - 1)))
    }
}

/// A text that may be empty.
pub open spec fn nonempty(text: Seq<char>) -> Option<Seq<char>> {
    if text.len() == 0 {
        None
    } else {
        Some(text)
    }
}

/// The character that stands between the names of a target: a comma, or else a
/// plus sign.
pub open spec fn name_separator(target: Seq<char>) -> char {
    if target.contains(',') {
        ','
    } else {
        '+'
    }
}

/// The condition on attributes that a target and a text make.
pub open spec fn names_of(target: Seq<char>, text: Seq<char>) -> Option<NamesV> {
    let any = target.contains(',');
    let names = pieces_from(target, name_separator(target), 0);
    if forall|k: int| 0 <= k < names.len() ==> is_name(#[trigger] names[k]) {
        Some(
            NamesV {
                target,
                names,
                operation: if any {
                    Operation::Any
                } else {
                    Operation::All
                },
                content: nonempty(text),
            },
        )
    } else {
        None
    }
}

/// The condition of a line, if it is one.
pub open spec fn condition_of(line: Seq<char>) -> Option<ConditionV> {
    match directive_parts(line, "ifdef::"@) {
        Some((target, text)) => match names_of(target, text) {
            Some(n) => Some(ConditionV::Ifdef(n)),
            None => None,
        },
        None => match directive_parts(line, "ifndef::"@) {
            Some((target, text)) => match names_of(target, text) {
                Some(n) => Some(ConditionV::Ifndef(n)),
                None => None,
            },
            None => match directive_parts(line, "ifeval::"@) {
                Some((target, text)) if target.len() == 0 => Some(ConditionV::Ifeval(text)),
                _ => None,
            },
        },
    }
}

/// The target of an `endif` line, if the line is one.
pub open spec fn endif_of(line: Seq<char>) -> Option<Seq<char>> {
    match directive_parts(line, "endif::"@) {
        Some((target, text)) => Some(target),
        None => None,
    }
}

/// Whether an `endif` with the target closes a condition: one without a target
/// closes any; else the target is that of the condition, or one of its names.
pub open spec fn closes(target: Seq<char>, condition: ConditionV) -> bool {
    target.len() == 0 || match condition {
        ConditionV::Ifdef(n) => target == n.target || n.names.contains(target),
        ConditionV::Ifndef(n) => target == n.target || n.names.contains(target),
        ConditionV::Ifeval(_) => false,
    }
}

/// Whether the attributes that are named are set.
pub open spec fn are_set(n: NamesV, attributes: Map<Seq<char>, (ValueV, bool)>) -> bool {
    match n.operation {
        Operation::Any => exists|k: int|
            0 <= k < n.names.len() && attributes.contains_key(#[trigger] n.names[k]),
        Operation::All => forall|k: int|
            0 <= k < n.names.len() ==> attributes.contains_key(#[trigger] n.names[k]),
    }
}

/// Whether a condition holds; `None` where that is for the expression to say.
pub open spec fn holds(condition: ConditionV, attributes: Map<Seq<char>, (ValueV, bool)>) -> Option<
    bool,
> {
    match condition {
        ConditionV::Ifdef(n) => Some(are_set(n, attributes)),
        ConditionV::Ifndef(n) => Some(!are_set(n, attributes)),
        ConditionV::Ifeval(_) => None,
    }
}

/// The text that a condition holds between its brackets, if any.
pub open spec fn own_content(condition: ConditionV) -> Option<Seq<char>> {
    match condition {
        ConditionV::Ifdef(n) => n.content,
        ConditionV::Ifndef(n) => n.content,
        ConditionV::Ifeval(_) => None,
    }
}

/// `ifndef` keeps what `ifdef` with the same target drops, and drops what it
/// keeps.
pub proof fn law_ifndef_is_the_opposite(
    n: NamesV,
    attributes: Map<Seq<char>, (ValueV, bool)>,
)
    ensures
        holds(ConditionV::Ifdef(n), attributes) is Some,
        holds(ConditionV::Ifndef(n), attributes) == Some(
            !holds(ConditionV::Ifdef(n), attributes)->Some_0,
        ),
{
}

proof fn lemma_first_at(s: Seq<char>, c: char, from: int, at: int)
    requires
        0 <= from <= at <= s.len(),
        at < s.len() ==> s[at] == c,
        forall|k: int| from <= k < at ==> s[k] != c,
    ensures
        index_from(s, c, from) == at,
{
    lemma_index_from(s, c, from);
    let found = index_from(s, c, from);
    if found < at {
        assert(s[found] != c);
    }
}

/// A line that is written as a directive has the target and the text that were
/// written.
proof fn lemma_written(keyword: Seq<char>, target: Seq<char>, text: Seq<char>)
    requires
        !target.contains('['),
    ensures
        directive_parts(keyword + target + seq!['['] + text + seq![']'], keyword) == Some(
            (target, text),
        ),
{
    let line = keyword + target + seq!['['] + text + seq![']'];
    let from = keyword.len() as int;
    let at = from + target.len();
    assert(line.subrange(0, from) =~= keyword);
    assert forall|k: int| from <= k < at implies line[k] != '[' by {
        assert(line[k] == target[k - from]);
        assert(target.contains(target[k - from]));
    }
    assert(line[at] == '[');
    lemma_first_at(line, '[', from, at);
    assert(line.subrange(from, at) =~= target);
    assert(line.subrange(at + 1, line.len() - 1) =~= text);
}

proof fn lemma_one_piece(s: Seq<char>, c: char)
    requires
        !s.contains(c),
    ensures
        pieces_from(s, c, 0) == seq![s],
{
    assert forall|k: int| 0 <= k < s.len() implies s[k] != c by {
        assert(s.contains(s[k]));
    }
    lemma_first_at(s, c, 0, s.len() as int);
    assert(s.skip(0) =~= s);
}

proof fn lemma_two_pieces(a: Seq<char>, b: Seq<char>, c: char)
    requires
        !a.contains(c),
        !b.contains(c),
    ensures
        pieces_from(a + seq![c] + b, c, 0) == seq![a, b],
{
    let s = a + seq![c] + b;
    let n = a.len() as int;
    assert forall|k: int| 0 <= k < n implies s[k] != c by {
        assert(s[k] == a[k]);
        assert(a.contains(a[k]));
    }
    lemma_first_at(s, c, 0, n);
    assert forall|k: int| n + 1 <= k < s.len() implies s[k] != c by {
        assert(s[k] == b[k - n - 1]);
        assert(b.contains(b[k - n - 1]));
    }
    lemma_first_at(s, c, n + 1, s.len() as int);
    assert(s.subrange(0, n) =~= a);
    assert(s.skip(n + 1) =~= b);
    reveal_with_fuel(pieces_from, 3);
    assert(pieces_from(s, c, n + 1) =~= seq![b]);
    assert(pieces_from(s, c, 0) =~= seq![a, b]);
}

proof fn lemma_name_chars(name: Seq<char>)
    requires
        is_name(name),
    ensures
        !name.contains('['),
        !name.contains(','),
        !name.contains('+'),
{
    assert forall|k: int| 0 <= k < name.len() implies #[trigger] name[k] != '[' && name[k] != ','
        && name[k] != '+' by {
        assert(is_name_char(name[k]));
    }
}

proof fn lemma_other_keyword(line: Seq<char>, keyword: Seq<char>, k: int)
    requires
        0 <= k < keyword.len(),
        k < line.len() ==> line[k] != keyword[k],
    ensures
        directive_parts(line, keyword) is None,
{
    if starts_with_spec(line, keyword) {
        assert(line.subrange(0, keyword.len() as int)[k] == line[k]);
    }
}

/// The condition of a line is the one that was written: the word decides whether the
/// attributes are to be set or not, the target names them, and the text between the
/// brackets is its own.
pub proof fn law_conditions_as_written(target: Seq<char>, text: Seq<char>)
    requires
        !target.contains('['),
        names_of(target, text) is Some,
    ensures
        condition_of("ifdef::"@ + target + seq!['['] + text + seq![']']) == Some(
            ConditionV::Ifdef(names_of(target, text)->Some_0),
        ),
        condition_of("ifndef::"@ + target + seq!['['] + text + seq![']']) == Some(
            ConditionV::Ifndef(names_of(target, text)->Some_0),
        ),
        condition_of("ifeval::"@ + seq!['['] + text + seq![']']) == Some(
            ConditionV::Ifeval(text),
        ),
        endif_of("endif::"@ + target + seq!['['] + text + seq![']']) == Some(target),
        own_content(ConditionV::Ifdef(names_of(target, text)->Some_0)) == if text.len() == 0 {
            None
        } else {
            Some(text)
        },
{
    reveal_strlit("ifdef::");
    reveal_strlit("ifndef::");
    reveal_strlit("ifeval::");
    reveal_strlit("endif::");
    lemma_written("ifdef::"@, target, text);
    lemma_written("ifndef::"@, target, text);
    lemma_written("endif::"@, target, text);
    lemma_written("ifeval::"@, Seq::empty(), text);
    let no = "ifndef::"@ + target + seq!['['] + text + seq![']'];
    assert(no[2] == 'n');
    lemma_other_keyword(no, "ifdef::"@, 2);
    let e = "ifeval::"@ + seq!['['] + text + seq![']'];
    assert("ifeval::"@ + Seq::<char>::empty() =~= "ifeval::"@);
    assert(e[2] == 'e');
    lemma_other_keyword(e, "ifdef::"@, 2);
    lemma_other_keyword(e, "ifndef::"@, 2);
}

/// One name asks for that attribute; of two names with a comma between them one is
/// enough, and with a plus sign both are needed.
pub proof fn law_names_of_a_condition(
    a: Seq<char>,
    b: Seq<char>,
    text: Seq<char>,
    attributes: Map<Seq<char>, (ValueV, bool)>,
)
    requires
        is_name(a),
        is_name(b),
    ensures
        names_of(a, text) matches Some(n) && are_set(n, attributes) == attributes.contains_key(a)
            && n.target == a,
        names_of(a + seq![','] + b, text) matches Some(n) && are_set(n, attributes) == (
        attributes.contains_key(a) || attributes.contains_key(b)),
        names_of(a + seq!['+'] + b, text) matches Some(n) && are_set(n, attributes) == (
        attributes.contains_key(a) && attributes.contains_key(b)),
{
    lemma_name_chars(a);
    lemma_name_chars(b);
    lemma_one_piece(a, '+');
    lemma_two_pieces(a, b, ',');
    lemma_two_pieces(a, b, '+');
    let either = a + seq![','] + b;
    assert(either[a.len() as int] == ',');
    let both = a + seq!['+'] + b;
    assert forall|k: int| 0 <= k < both.len() implies #[trigger] both[k] != ',' by {
        if k < a.len() {
            assert(a.contains(a[k]));
        } else if k > a.len() {
            assert(both[k] == b[k - a.len() - 1]);
            assert(b.contains(b[k - a.len() - 1]));
        }
    }
    let one = names_of(a, text)->Some_0;
    assert(one.names =~= seq![a]);
    assert(one.names[0] == a);
    let n = names_of(either, text)->Some_0;
    assert(n.names[0] == a && n.names[1] == b);
    let n = names_of(both, text)->Some_0;
    assert(n.names[0] == a && n.names[1] == b);
}

/// An end without a target closes any condition, and one with the target or with one
/// of the names closes a condition on attributes. Nothing but an end without a target
/// closes a condition on an expression.
pub proof fn law_ends_of_a_condition(n: NamesV, k: int, expression: Seq<char>, other: Seq<char>)
    requires
        0 <= k < n.names.len(),
        other.len() > 0,
    ensures
        closes(Seq::empty(), ConditionV::Ifdef(n)),
        closes(Seq::empty(), ConditionV::Ifndef(n)),
        closes(Seq::empty(), ConditionV::Ifeval(expression)),
        closes(n.target, ConditionV::Ifdef(n)),
        closes(n.target, ConditionV::Ifndef(n)),
        closes(n.names[k], ConditionV::Ifdef(n)),
        closes(n.names[k], ConditionV::Ifndef(n)),
        !closes(other, ConditionV::Ifeval(expression)),
        other != n.target && !n.names.contains(other) ==> !closes(other, ConditionV::Ifdef(n))
            && !closes(other, ConditionV::Ifndef(n)),
{
    assert(n.names.contains(n.names[k]));
}

// ---------------------------------------------------------------------------
// Executable operations.
// ---------------------------------------------------------------------------

fn find_char(cs: &[char], c: char, from: usize) -> (r: usize)
    requires
        from <= cs@.len(),
    ensures
        r == index_from(cs@, c, from as int),
        from <= r <= cs@.len(),
        r < cs@.len() ==> cs@[r as int] == c,
{
    let mut i: usize = from;
    while i < cs.len()
        invariant
            from <= i <= cs@.len(),
            index_from(cs@, c, from as int) == index_from(cs@, c, i as int),
        decreases cs.len() - i,
    {
        if cs[i] == c {
            return i;
        }
        i += 1;
    }
    i
}

/// The target and the text of a directive, as positions: where the target starts
/// and ends.
fn split_directive(line: &str, keyword: &str) -> (r: Option<(String, String)>)
    requires
        keyword@.len() > 0,
    ensures
        match r {
            Some(parts) => directive_parts(line@, keyword@) == Some((parts.0@, parts.1@)),
            None => directive_parts(line@, keyword@) is None,
        },
{
    if !starts_with(line, keyword) {
        return None;
    }
    let cs = chars_of(line);
    let n: usize = cs.len();
    let from: usize = keyword.unicode_len();
    let bracket = find_char(&cs, '[', from);
    if bracket >= n || cs[n - 1] != ']' {
        return None;
    }
    assert(bracket < n - 1);
    Some((string_of(&cs, from, bracket), string_of(&cs, bracket + 1, n - 1)))
}

/// Split a target into names; `None` where one of them is no name.
fn split_names(target: &str, c: char) -> (r: Option<Vec<String>>)
    ensures
        match r {
            Some(names) => {
                &&& names.deep_view() == pieces_from(target@, c, 0)
                &&& forall|k: int|
                    0 <= k < names.deep_view().len() ==> is_name(#[trigger] names.deep_view()[k])
            },
            None => !(forall|k: int|
                0 <= k < pieces_from(target@, c, 0).len() ==> is_name(
                    #[trigger] pieces_from(target@, c, 0)[k],
                )),
        },
{
    let cs = chars_of(target);
    let n: usize = cs.len();
    let mut names: Vec<String> = Vec::new();
    let mut from: usize = 0;
    let ghost all = pieces_from(target@, c, 0);
    assert(names.deep_view() + all =~= all);
    loop
        invariant
            from <= n,
            n == cs@.len(),
            cs@ == target@,
            all == pieces_from(target@, c, 0),
            all == names.deep_view() + pieces_from(target@, c, from as int),
            forall|k: int|
                0 <= k < names.deep_view().len() ==> is_name(#[trigger] names.deep_view()[k]),
        decreases n - from,
    {
        let e = find_char(&cs, c, from);
        let ghost before = names.deep_view();
        let ghost piece = target@.subrange(from as int, e as int);
        let ghost rest = pieces_from(target@, c, from as int);
        assert(rest[0] =~= piece);
        assert(all[before.len() as int] == rest[0]);
        if !name_at(&cs, from, e) {
            assert(!is_name(all[before.len() as int]));
            return None;
        }
        let name = string_of(&cs, from, e);
        names.push(name);
        assert(names.deep_view() =~= before.push(piece));
        if e >= n {
            assert(before + seq![piece] =~= before.push(piece));
            assert(rest =~= seq![piece]);
            return Some(names);
        }
        from = e + 1;
        assert(before + (seq![piece] + pieces_from(target@, c, from as int)) =~= before.push(piece)
            + pieces_from(target@, c, from as int));
    }
}

fn read_names(target: String, text: String) -> (r: Option<Names>)
    ensures
        match r {
            Some(n) => names_of(target@, text@) == Some(n.deep_view()),
            None => names_of(target@, text@) is None,
        },
{
    let any = crate::text::contains_char(target.as_str(), ',');
    let names = split_names(
        target.as_str(),
        if any {
            ','
        } else {
            '+'
        },
    );
    match names {
        None => None,
        Some(names) => {
            let content = if text.as_str().unicode_len() == 0 {
                None
            } else {
                Some(text)
            };
            let operation = if any {
                Operation::Any
            } else {
                Operation::All
            };
            Some(Names { target, names, operation, content })
        },
    }
}

/// Read a conditional directive.
pub fn parse_line(line: &str) -> (r: Option<Conditional>)
    ensures
        match r {
            Some(c) => condition_of(line@) == Some(c.deep_view()),
            None => condition_of(line@) is None,
        },
{
    proof {
        reveal_strlit("ifdef::");
        reveal_strlit("ifndef::");
        reveal_strlit("ifeval::");
    }
    match split_directive(line, "ifdef::") {
        Some((target, text)) => {
            return match read_names(target, text) {
                Some(n) => Some(Conditional::Ifdef(n)),
                None => None,
            };
        },
        None => {},
    }
    match split_directive(line, "ifndef::") {
        Some((target, text)) => {
            return match read_names(target, text) {
                Some(n) => Some(Conditional::Ifndef(n)),
                None => None,
            };
        },
        None => {},
    }
    match split_directive(line, "ifeval::") {
        Some((target, text)) => if target.as_str().unicode_len() == 0 {
            Some(Conditional::Ifeval(text))
        } else {
            None
        },
        None => None,
    }
}

/// Read an `endif` directive: its target.
pub fn parse_endif(line: &str) -> (r: Option<String>)
    ensures
        match r {
            Some(t) => endif_of(line@) == Some(t@),
            None => endif_of(line@) is None,
        },
{
    proof {
        reveal_strlit("endif::");
    }
    match split_directive(line, "endif::") {
        Some((target, _)) => Some(target),
        None => None,
    }
}

fn names_contain(names: &Vec<String>, name: &str) -> (r: bool)
    ensures
        r == names.deep_view().contains(name@),
{
    let mut k: usize = 0;
    while k < names.len()
        invariant
            k <= names@.len(),
            forall|j: int| 0 <= j < k ==> #[trigger] names.deep_view()[j] != name@,
        decreases names.len() - k,
    {
        assert(names.deep_view()[k as int] == names@[k as int]@);
        if same_chars(names[k].as_str(), name) {
            return true;
        }
        k += 1;
    }
    false
}

impl Names {
    fn closed_by(&self, target: &str) -> (r: bool)
        ensures
            r == (target@ == self.deep_view().target || self.deep_view().names.contains(target@)),
    {
        same_chars(target, self.target.as_str()) || names_contain(&self.names, target)
    }

    fn set_in(&self, attributes: &DocumentAttributes<'_>) -> (r: bool)
        ensures
            r == are_set(self.deep_view(), attributes@),
    {
        let ghost nv = self.names.deep_view();
        let mut k: usize = 0;
        let any = match self.operation {
            Operation::Any => true,
            Operation::All => false,
        };
        while k < self.names.len()
            invariant
                k <= self.names@.len(),
                nv == self.names.deep_view(),
                any == (self.operation == Operation::Any),
                forall|j: int| 0 <= j < k ==> any != attributes@.contains_key(#[trigger] nv[j]),
            decreases self.names.len() - k,
        {
            assert(nv[k as int] == self.names@[k as int]@);
            if attributes.contains_key(self.names[k].as_str()) == any {
                assert(attributes@.contains_key(self.deep_view().names[k as int]) == any);
                return any;
            }
            k += 1;
        }
        !any
    }
}

impl Conditional {
    /// Whether an `endif` with the target closes the condition.
    pub fn closed_by(&self, target: &str) -> (r: bool)
        ensures
            r == closes(target@, self.deep_view()),
    {
        if target.unicode_len() == 0 {
            return true;
        }
        match self {
            Conditional::Ifdef(n) => n.closed_by(target),
            Conditional::Ifndef(n) => n.closed_by(target),
            Conditional::Ifeval(_) => false,
        }
    }

    /// Whether the condition holds; `None` where that is for its expression to say.
    pub fn is_true(&self, attributes: &DocumentAttributes<'_>) -> (r: Option<bool>)
        ensures
            r == holds(self.deep_view(), attributes@),
    {
        match self {
            Conditional::Ifdef(n) => Some(n.set_in(attributes)),
            Conditional::Ifndef(n) => Some(!n.set_in(attributes)),
            Conditional::Ifeval(_) => None,
        }
    }

    /// The text between the brackets of the condition, if any.
    pub fn own_text(&self) -> (r: Option<String>)
        ensures
            own_content(self.deep_view()) == (match r {
                Some(s) => Some(s@),
                None => None,
            }),
    {
        match self {
            Conditional::Ifdef(n) => match &n.content {
                Some(c) => Some(c.clone()),
                None => None,
            },
            Conditional::Ifndef(n) => match &n.content {
                Some(c) => Some(c.clone()),
                None => None,
            },
            Conditional::Ifeval(_) => None,
        }
    }
}

} // verus!

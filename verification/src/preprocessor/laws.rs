//! What holds of going through a source, whatever stands in it.

use crate::attributes::ValueV;
use crate::error::{ErrorV, PlaceV, WarningV};
use crate::preprocessor::attribute::{after_attribute_line, is_name, law_attribute_lines};
use crate::preprocessor::conditional::{
    closes, condition_of, endif_of, holds, own_content, ConditionV,
};
use crate::preprocessor::normalize::{joined, normalized, trimmed_lines};
use crate::preprocessor::process::{
    body, delimiter_of, done_of, governed, has_parent, is_attribute, is_conditional, is_directive,
    is_escaped, is_trigger, law_lost_lines, lemma_body, passes_through, processed,
    processed_file, step, without_backslashes, wrapped_piece, wraps, AnswerV, ContentV, ContextV,
    DoneV, EndV, OutV, ProgressV, RequestV, RunV, StepV,
};

use crate::text::{
    blen, contains_spec, ends_with_spec, index_from, is_ws, lemma_blen_concat, lemma_blen_one,
    lemma_index_from, lemma_trimmed_len,
    lines_blen, lines_from, lines_spec, matches_at, starts_with_spec, trim_end_spec,
    trim_spec, trim_start_spec,
};
use vstd::prelude::*;
use vstd::string::*;

verus! {

/// The lines one behind the other, each with a line feed behind it.
pub open spec fn with_feeds(lines: Seq<Seq<char>>) -> Seq<char> {
    lines.map_values(|line: Seq<char>| line.push('\n')).flatten()
}

/// Whether a step has taken so many lines, and changed nothing but what was put out
/// and where it has come to.
pub open spec fn only_reads(before: RunV, after: RunV, taken: int) -> bool {
    &&& after.i == before.i + taken
    &&& after.number == before.number + taken
    &&& after.attributes == before.attributes
    &&& after.used == before.used
    &&& after.warnings == before.warnings
}

/// Whether a line was put out behind the others, and nothing else was noted.
pub open spec fn only_adds(before: OutV, after: OutV, text: Seq<char>) -> bool {
    &&& after.lines == before.lines.push(text)
    &&& before.bytes + blen(text) + 1 <= usize::MAX ==> after.bytes == before.bytes + blen(text) + 1
    &&& after.levels == before.levels
    &&& after.sources == before.sources
    &&& after.expansions == before.expansions
    &&& after.drops == before.drops
}

// ---------------------------------------------------------------------------
// Facts about lines.
// ---------------------------------------------------------------------------

proof fn lemma_front(s: Seq<char>, front: Seq<char>, k: int)
    requires
        starts_with_spec(s, front),
        0 <= k < front.len(),
    ensures
        s.len() >= front.len(),
        s[k] == front[k],
{
    assert(s.subrange(0, front.len() as int)[k] == s[k]);
}

/// A line that starts with a letter or the like is no delimiter.
proof fn lemma_no_delimiter(line: Seq<char>)
    requires
        line.len() > 0,
        !is_ws(line[0]),
        line[0] != '`' && line[0] != '-' && line[0] != '.' && line[0] != '+',
    ensures
        delimiter_of(line) is None,
{
    reveal_strlit("```");
    assert(trim_start_spec(line) =~= line);
    let t = trim_spec(line);
    lemma_trimmed_len(line);
    if t.len() > 0 {
        assert(t[0] == line[0]);
        if starts_with_spec(t, "```"@) {
            lemma_front(t, "```"@, 0);
        }
    }
}

/// A directive is recognised by the letters that it starts with.
proof fn lemma_keyword(line: Seq<char>)
    requires
        starts_with_spec(line, "include"@) || is_conditional(line),
    ensures
        line.len() > 0,
        line[0] == 'i',
        !is_attribute(line),
        delimiter_of(line) is None,
        !starts_with_spec(line, "//"@),
        !is_escaped(line),
        starts_with_spec(line, "include"@) ==> !is_conditional(line),
{
    reveal_strlit("include");
    reveal_strlit("ifdef");
    reveal_strlit("ifndef");
    reveal_strlit("ifeval");
    reveal_strlit("//");
    reveal_strlit("\\include");
    reveal_strlit("\\ifdef");
    reveal_strlit("\\ifndef");
    reveal_strlit("\\ifeval");
    if starts_with_spec(line, "include"@) {
        lemma_front(line, "include"@, 0);
        lemma_front(line, "include"@, 1);
    }
    if starts_with_spec(line, "ifdef"@) {
        lemma_front(line, "ifdef"@, 0);
        lemma_front(line, "ifdef"@, 1);
    }
    if starts_with_spec(line, "ifndef"@) {
        lemma_front(line, "ifndef"@, 0);
        lemma_front(line, "ifndef"@, 1);
    }
    if starts_with_spec(line, "ifeval"@) {
        lemma_front(line, "ifeval"@, 0);
        lemma_front(line, "ifeval"@, 1);
    }
    if starts_with_spec(line, "//"@) {
        lemma_front(line, "//"@, 0);
    }
    if starts_with_spec(line, "\\include"@) {
        lemma_front(line, "\\include"@, 0);
    }
    if starts_with_spec(line, "\\ifdef"@) {
        lemma_front(line, "\\ifdef"@, 0);
    }
    if starts_with_spec(line, "\\ifndef"@) {
        lemma_front(line, "\\ifndef"@, 0);
    }
    if starts_with_spec(line, "\\ifeval"@) {
        lemma_front(line, "\\ifeval"@, 0);
    }
    lemma_no_delimiter(line);
}

proof fn lemma_body_lines(lines: Seq<Seq<char>>, j: int, content: Seq<char>)
    requires
        0 <= j <= lines.len(),
    ensures
        ({
            let (all, e, at_end) = body(lines, j, content);
            &&& j <= e <= lines.len()
            &&& all == content + with_feeds(lines.subrange(j, e))
            &&& forall|k: int|
                j <= k < e ==> (#[trigger] lines[k]).len() > 0 && !starts_with_spec(
                    lines[k],
                    "endif"@,
                )
            &&& at_end ==> e < lines.len() && starts_with_spec(lines[e], "endif"@)
            &&& !at_end && e < lines.len() ==> lines[e].len() == 0
        }),
    decreases lines.len() - j,
{
    lemma_body(lines, j, content);
    let e = body(lines, j, content).1;
    let add_feed = |line: Seq<char>| line.push('\n');
    let run = lines.subrange(j, e).map_values(add_feed);
    if j >= lines.len() || lines[j].len() == 0 || starts_with_spec(lines[j], "endif"@) {
        assert(run =~= Seq::empty());
        assert(content + run.flatten() =~= content);
    } else {
        let next = content + lines[j] + seq!['\n'];
        lemma_body_lines(lines, j + 1, next);
        let rest = lines.subrange(j + 1, e).map_values(add_feed);
        assert(run.drop_first() =~= rest);
        assert(run.first() =~= lines[j] + seq!['\n']);
        assert(next + rest.flatten() =~= content + run.flatten());
    }
}

// ---------------------------------------------------------------------------
// Laws.
// ---------------------------------------------------------------------------

/// What a condition governs is, line for line and in the order of the source, what
/// stands between the directive and its end: all lines up to the first that is empty
/// or begins with `endif`, or up to the end of the source.
pub proof fn law_governed_lines(lines: Seq<Seq<char>>, i: int, condition: ConditionV)
    requires
        0 <= i < lines.len(),
        own_content(condition) is None,
    ensures
        ({
            let (content, j, at_end) = governed(lines, i, condition);
            &&& i < j <= lines.len()
            &&& content == with_feeds(lines.subrange(i + 1, j))
            &&& forall|k: int|
                i < k < j ==> (#[trigger] lines[k]).len() > 0 && !starts_with_spec(
                    lines[k],
                    "endif"@,
                )
            &&& at_end <==> j < lines.len() && starts_with_spec(lines[j], "endif"@)
            &&& !at_end && j < lines.len() ==> lines[j].len() == 0
        }),
{
    lemma_body_lines(lines, i + 1, Seq::empty());
    let (content, j, at_end) = governed(lines, i, condition);
    assert(Seq::<char>::empty() + with_feeds(lines.subrange(i + 1, j)) =~= with_feeds(
        lines.subrange(i + 1, j),
    ));
    reveal_strlit("endif");
}

/// A line that neither starts with a colon nor ends with a bracket is put out as it is.
pub proof fn law_plain_lines_are_kept(
    lines: Seq<Seq<char>>,
    r: RunV,
    answers: Seq<AnswerV>,
    ctx: ContextV,
)
    requires
        0 <= r.i < lines.len(),
        lines[r.i].len() > 0 ==> lines[r.i][0] != ':' && lines[r.i].last() != ']',
    ensures
        step(lines, r, answers, ctx) matches StepV::Next(next) && only_reads(r, next, 1)
            && only_adds(r.out, next.out, lines[r.i]) && (r.offset + blen(lines[r.i]) + 1
            <= usize::MAX ==> next.offset == r.offset + blen(lines[r.i]) + 1),
{
}

/// A directive of any other kind is put out as it is: an image, a macro, a link.
pub proof fn law_other_directives_are_kept(
    lines: Seq<Seq<char>>,
    r: RunV,
    answers: Seq<AnswerV>,
    ctx: ContextV,
)
    requires
        0 <= r.i < lines.len(),
        lines[r.i].len() > 0,
        lines[r.i][0] != ':' && lines[r.i][0] != 'i' && lines[r.i][0] != '\\',
    ensures
        step(lines, r, answers, ctx) matches StepV::Next(next) && only_reads(r, next, 1)
            && only_adds(r.out, next.out, lines[r.i]),
{
    let line = lines[r.i];
    reveal_strlit("include");
    reveal_strlit("ifdef");
    reveal_strlit("ifndef");
    reveal_strlit("ifeval");
    reveal_strlit("\\include");
    reveal_strlit("\\ifdef");
    reveal_strlit("\\ifndef");
    reveal_strlit("\\ifeval");
    if starts_with_spec(line, "include"@) {
        lemma_front(line, "include"@, 0);
    }
    if starts_with_spec(line, "ifdef"@) {
        lemma_front(line, "ifdef"@, 0);
    }
    if starts_with_spec(line, "ifndef"@) {
        lemma_front(line, "ifndef"@, 0);
    }
    if starts_with_spec(line, "ifeval"@) {
        lemma_front(line, "ifeval"@, 0);
    }
    if starts_with_spec(line, "\\include"@) {
        lemma_front(line, "\\include"@, 0);
    }
    if starts_with_spec(line, "\\ifdef"@) {
        lemma_front(line, "\\ifdef"@, 0);
    }
    if starts_with_spec(line, "\\ifndef"@) {
        lemma_front(line, "\\ifndef"@, 0);
    }
    if starts_with_spec(line, "\\ifeval"@) {
        lemma_front(line, "\\ifeval"@, 0);
    }
}

/// An escaped directive is put out without its backslash, and nothing else is done.
#[verifier::rlimit(30)]
pub proof fn law_escaped_directives_are_text(
    lines: Seq<Seq<char>>,
    r: RunV,
    answers: Seq<AnswerV>,
    ctx: ContextV,
    rest: Seq<char>,
)
    requires
        0 <= r.i < lines.len(),
        lines[r.i] == seq!['\\'] + rest,
        is_conditional(rest) || starts_with_spec(rest, "include"@),
        rest.len() > 0 && rest.last() == ']',
        contains_spec(rest, "::"@),
    ensures
        step(lines, r, answers, ctx) matches StepV::Next(next) && only_reads(r, next, 1)
            && only_adds(r.out, next.out, rest),
{
    let line = lines[r.i];
    reveal_strlit("include");
    reveal_strlit("ifdef");
    reveal_strlit("ifndef");
    reveal_strlit("ifeval");
    reveal_strlit("\\include");
    reveal_strlit("\\ifdef");
    reveal_strlit("\\ifndef");
    reveal_strlit("\\ifeval");
    reveal_strlit("//");
    reveal_strlit("::");
    assert(line.drop_first() =~= rest);
    if starts_with_spec(rest, "include"@) {
        assert("\\include"@ =~= seq!['\\'] + "include"@);
        assert(line.subrange(0, 8) =~= seq!['\\'] + rest.subrange(0, 7));
    }
    if starts_with_spec(rest, "ifdef"@) {
        assert("\\ifdef"@ =~= seq!['\\'] + "ifdef"@);
        assert(line.subrange(0, 6) =~= seq!['\\'] + rest.subrange(0, 5));
    }
    if starts_with_spec(rest, "ifndef"@) {
        assert("\\ifndef"@ =~= seq!['\\'] + "ifndef"@);
        assert(line.subrange(0, 7) =~= seq!['\\'] + rest.subrange(0, 6));
    }
    if starts_with_spec(rest, "ifeval"@) {
        assert("\\ifeval"@ =~= seq!['\\'] + "ifeval"@);
        assert(line.subrange(0, 7) =~= seq!['\\'] + rest.subrange(0, 6));
    }
    assert(is_escaped(line));
    let at = choose|at: int| matches_at(rest, "::"@, at);
    assert(line.subrange(at + 1, at + 3) =~= rest.subrange(at, at + 2));
    assert(matches_at(line, "::"@, at + 1));
    assert(line.last() == ']');
    lemma_no_delimiter(line);
    if starts_with_spec(line, "//"@) {
        lemma_front(line, "//"@, 0);
    }
}

/// A condition that holds puts out the lines between it and its end, in their order,
/// as one piece; one that does not hold puts out nothing. Either way it goes on
/// behind the end, or at the empty line that stands in its place, and changes no
/// attribute.
pub proof fn law_conditions_keep_or_drop(
    lines: Seq<Seq<char>>,
    r: RunV,
    answers: Seq<AnswerV>,
    ctx: ContextV,
    condition: ConditionV,
    j: int,
    truth: bool,
)
    requires
        0 <= r.i < j <= lines.len(),
        is_directive(lines[r.i]),
        is_conditional(lines[r.i]),
        condition_of(lines[r.i]) == Some(condition),
        own_content(condition) is None,
        holds(condition, r.attributes) == Some(truth),
        forall|k: int|
            r.i < k < j ==> (#[trigger] lines[k]).len() > 0 && !starts_with_spec(
                lines[k],
                "endif"@,
            ),
        j < lines.len() ==> lines[j].len() == 0 || (starts_with_spec(lines[j], "endif"@)
            && endif_of(lines[j]) is Some && closes(endif_of(lines[j])->Some_0, condition)),
    ensures
        ({
            let taken = if j < lines.len() && lines[j].len() > 0 {
                j + 1 - r.i
            } else {
                j - r.i
            };
            &&& step(lines, r, answers, ctx) matches StepV::Next(next)
            &&& only_reads(r, next, taken)
            &&& next.out.lines == if truth {
                r.out.lines.push(with_feeds(lines.subrange(r.i + 1, j)))
            } else {
                r.out.lines
            }
            &&& next.out.levels == r.out.levels
            &&& next.out.sources == r.out.sources
            &&& next.out.expansions == r.out.expansions
            &&& !truth ==> next.out.bytes == r.out.bytes
            &&& truth && r.out.bytes + blen(with_feeds(lines.subrange(r.i + 1, j))) + 1
                <= usize::MAX ==> next.out.bytes == r.out.bytes + blen(
                with_feeds(lines.subrange(r.i + 1, j)),
            ) + 1
            &&& r.offset + blen(with_feeds(lines.subrange(r.i, r.i + taken))) <= usize::MAX
                ==> next.offset == r.offset + blen(with_feeds(lines.subrange(r.i, r.i + taken)))
        }),
{
    let line = lines[r.i];
    lemma_keyword(line);
    law_governed_lines(lines, r.i, condition);
    let (content, e, at_end) = governed(lines, r.i, condition);
    reveal_strlit("endif");
    if e < j {
        assert(lines[e].len() > 0);
    } else if j < e {
        assert(lines[j].len() > 0);
    }
    assert(e == j);
    law_bytes_of_lines(
        lines.subrange(
            r.i,
            if at_end {
                j + 1
            } else {
                j
            },
        ),
    );
}

/// A condition that has a text between its brackets puts that text out if it holds,
/// and nothing if it does not; no line behind it belongs to it.
pub proof fn law_conditions_with_their_text(
    lines: Seq<Seq<char>>,
    r: RunV,
    answers: Seq<AnswerV>,
    ctx: ContextV,
    condition: ConditionV,
    text: Seq<char>,
    truth: bool,
)
    requires
        0 <= r.i < lines.len(),
        is_directive(lines[r.i]),
        is_conditional(lines[r.i]),
        condition_of(lines[r.i]) == Some(condition),
        own_content(condition) == Some(text),
        holds(condition, r.attributes) == Some(truth),
    ensures
        step(lines, r, answers, ctx) matches StepV::Next(next) && only_reads(r, next, 1)
            && next.out.lines == (if truth {
            r.out.lines.push(text)
        } else {
            r.out.lines
        }) && next.out.levels == r.out.levels && next.out.sources == r.out.sources
            && next.out.expansions == r.out.expansions,
{
    lemma_keyword(lines[r.i]);
}

/// An end that names something else than its condition is an error, of which a
/// warning tells at the line of the end.
pub proof fn law_ends_must_match(
    lines: Seq<Seq<char>>,
    r: RunV,
    answers: Seq<AnswerV>,
    ctx: ContextV,
    condition: ConditionV,
    j: int,
)
    requires
        0 <= r.i < j < lines.len(),
        is_directive(lines[r.i]),
        is_conditional(lines[r.i]),
        condition_of(lines[r.i]) == Some(condition),
        own_content(condition) is None,
        forall|k: int|
            r.i < k < j ==> (#[trigger] lines[k]).len() > 0 && !starts_with_spec(
                lines[k],
                "endif"@,
            ),
        starts_with_spec(lines[j], "endif"@),
        endif_of(lines[j]) is Some,
        !closes(endif_of(lines[j])->Some_0, condition),
    ensures
        ({
            let place = PlaceV { file: ctx.file, line: r.number + (j - r.i), column: 1 };
            step(lines, r, answers, ctx) == StepV::Stop(
                EndV::Failed(ErrorV::InvalidConditionalDirective(place)),
                r.warnings.push(
                    WarningV {
                        message: "attribute mismatch between if and endif directives"@,
                        location: Some(place),
                    },
                ),
            )
        }),
{
    let line = lines[r.i];
    lemma_keyword(line);
    law_governed_lines(lines, r.i, condition);
    let (content, e, at_end) = governed(lines, r.i, condition);
    reveal_strlit("endif");
    lemma_front(lines[j], "endif"@, 0);
    if e < j {
        assert(lines[e].len() > 0);
    } else if j < e {
        assert(lines[j].len() > 0);
    }
}

/// The content that a directive asks for takes the place of the directive: its lines
/// come behind those that were put out before. What was noted before stays. A level
/// offset other than zero is noted for the bytes of the content, whatever was noted
/// before, and behind it the offsets within the content, moved to where it stands.
pub proof fn law_content_takes_its_place(
    lines: Seq<Seq<char>>,
    r: RunV,
    answers: Seq<AnswerV>,
    ctx: ContextV,
    content: ContentV,
)
    requires
        0 <= r.i < lines.len(),
        0 <= r.used < answers.len(),
        answers[r.used] == AnswerV::Content(content),
        is_directive(lines[r.i]),
        starts_with_spec(lines[r.i], "include"@),
        ctx.depth < 64,
        ctx.file is Some,
        has_parent(ctx.file->Some_0),
        0 <= r.out.bytes,
        r.out.bytes + lines_blen(content.lines) <= usize::MAX,
        forall|k: int|
            0 <= k < content.levels.len() ==> r.out.bytes + (#[trigger] content.levels[k]).0
                <= usize::MAX && r.out.bytes + content.levels[k].1 <= usize::MAX,
        forall|k: int|
            0 <= k < content.sources.len() ==> r.out.bytes + (#[trigger] content.sources[k]).0
                <= usize::MAX && r.out.bytes + content.sources[k].1 <= usize::MAX,
    ensures
        ({
            let start = r.out.bytes;
            let end = start + lines_blen(content.lines);
            let own: int = if content.leveloffset is Some && content.leveloffset->Some_0 != 0 {
                1
            } else {
                0
            };
            let levels = r.out.levels.len();
            let sources = r.out.sources.len();
            &&& step(lines, r, answers, ctx) matches StepV::Next(next)
            &&& next.i == r.i + 1
            &&& next.number == r.number + 1
            &&& next.used == r.used + 1
            &&& next.attributes == r.attributes
            &&& r.offset + blen(lines[r.i]) + 1 <= usize::MAX ==> next.offset == r.offset + blen(
                lines[r.i],
            ) + 1
            &&& next.warnings == r.warnings + content.warnings
            &&& next.out.lines == r.out.lines + content.lines
            &&& next.out.bytes == end
            &&& next.out.drops == r.out.drops
            &&& next.out.levels.len() == levels + own + content.levels.len()
            &&& forall|k: int| 0 <= k < levels ==> next.out.levels[k] == #[trigger] r.out.levels[k]
            &&& own == 1 ==> next.out.levels[levels as int] == (
                start,
                end as int,
                content.leveloffset->Some_0 as int,
            )
            &&& forall|k: int|
                0 <= k < content.levels.len() ==> next.out.levels[levels + own + k] == (
                    start + (#[trigger] content.levels[k]).0,
                    start + content.levels[k].1,
                    content.levels[k].2,
                )
            &&& forall|k: int|
                0 <= k < sources ==> next.out.sources[k] == #[trigger] r.out.sources[k]
            &&& content.file matches Some(f) ==> next.out.sources.len() == sources + 1
                + content.sources.len() && next.out.sources[sources as int] == (
                start,
                end as int,
                f,
                1int,
            ) && forall|k: int|
                0 <= k < content.sources.len() ==> next.out.sources[sources + 1 + k] == (
                    start + (#[trigger] content.sources[k]).0,
                    start + content.sources[k].1,
                    content.sources[k].2,
                    content.sources[k].3,
                )
            &&& content.file is None ==> next.out.sources == r.out.sources
            &&& next.out.expansions == if ctx.depth == 0 {
                r.out.expansions.push((r.number, content.lines.len() as int))
            } else {
                r.out.expansions
            }
        }),
{
    lemma_keyword(lines[r.i]);
}

/// A directive that asks for content too deep down, or where there is no file, is
/// passed over with a warning: no question is asked and nothing is put out.
pub proof fn law_content_out_of_reach(
    lines: Seq<Seq<char>>,
    r: RunV,
    answers: Seq<AnswerV>,
    ctx: ContextV,
)
    requires
        0 <= r.i < lines.len(),
        is_directive(lines[r.i]),
        starts_with_spec(lines[r.i], "include"@),
        ctx.depth >= 64 || ctx.file is None,
    ensures
        step(lines, r, answers, ctx) matches StepV::Next(next) && next.i == r.i + 1 && next.number
            == r.number + 1 && next.used == r.used && next.attributes == r.attributes
            && next.out.lines == r.out.lines && next.out.bytes == r.out.bytes && next.out.levels
            == r.out.levels && next.out.sources == r.out.sources && next.warnings.len()
            == r.warnings.len() + 1 && next.warnings.drop_last() == r.warnings
            && next.warnings.last().location == Some(
            PlaceV { file: ctx.file, line: r.number, column: 1 },
        ) && next.warnings.last().message == (if ctx.depth >= 64 {
            "include depth exceeded 64 — possible cyclic include; skipping"@
        } else {
            "include directive cannot be processed: no file context (set `virtual_current_file` or use `parse_file`)"@
        }),
{
    lemma_keyword(lines[r.i]);
    match step(lines, r, answers, ctx) {
        StepV::Next(next) => {
            assert(next.warnings.drop_last() =~= r.warnings);
        },
        StepV::Stop(_, _) => {},
    }
}

/// A line that sets an attribute is put out as it is, and the attribute has its value
/// from there on; the others keep theirs.
pub proof fn law_attributes_are_set(
    lines: Seq<Seq<char>>,
    r: RunV,
    answers: Seq<AnswerV>,
    ctx: ContextV,
    name: Seq<char>,
    value: Seq<char>,
)
    requires
        0 <= r.i < lines.len(),
        is_name(name),
        value.len() > 0 && !is_ws(value[0]) && !is_ws(value.last()),
        value.last() != '\\' && value.last() != ']',
        lines[r.i] == seq![':'] + name + seq![':', ' '] + value,
    ensures
        step(lines, r, answers, ctx) matches StepV::Next(next) && next.i == r.i + 1
            && next.number == r.number + 1 && next.used == r.used && next.warnings == r.warnings
            && only_adds(r.out, next.out, lines[r.i]) && next.attributes == r.attributes.insert(
            name,
            (ValueV::Text(value), true),
        ),
{
    let line = lines[r.i];
    reveal_strlit(" + \\");
    reveal_strlit(" \\");
    assert(line.last() == value.last());
    if ends_with_spec(line, " + \\"@) {
        assert(line.subrange(line.len() - 4, line.len() as int)[3] == line.last());
    }
    if ends_with_spec(line, " \\"@) {
        assert(line.subrange(line.len() - 2, line.len() as int)[1] == line.last());
    }
    assert(line[0] == ':');
    assert(trim_start_spec(line) =~= line);
    assert(trim_spec(line) =~= line);
    law_attribute_lines(r.attributes, name, value);
}

/// A line that unsets an attribute is put out as it is, and the attribute is not there
/// from there on; the others keep their values.
pub proof fn law_attributes_are_unset(
    lines: Seq<Seq<char>>,
    r: RunV,
    answers: Seq<AnswerV>,
    ctx: ContextV,
    name: Seq<char>,
)
    requires
        0 <= r.i < lines.len(),
        is_name(name),
        lines[r.i] == seq![':', '!'] + name + seq![':'] || lines[r.i] == seq![':'] + name + seq![
            '!',
            ':',
        ],
    ensures
        step(lines, r, answers, ctx) matches StepV::Next(next) && next.i == r.i + 1
            && next.number == r.number + 1 && next.used == r.used && next.warnings == r.warnings
            && only_adds(r.out, next.out, lines[r.i]) && next.attributes == r.attributes.remove(
            name,
        ),
{
    let line = lines[r.i];
    reveal_strlit(" + \\");
    reveal_strlit(" \\");
    assert(line.last() == ':');
    if ends_with_spec(line, " + \\"@) {
        assert(line.subrange(line.len() - 4, line.len() as int)[3] == line.last());
    }
    if ends_with_spec(line, " \\"@) {
        assert(line.subrange(line.len() - 2, line.len() as int)[1] == line.last());
    }
    assert(line[0] == ':');
    assert(trim_start_spec(line) =~= line);
    assert(trim_spec(line) =~= line);
    law_attribute_lines(r.attributes, name, seq!['x']);
}

/// The lines of a wrapped attribute are put out as one: of each line but the last what
/// stands before the backslash at its end, and the last without white space round it.
/// The attribute has the value that the lines make together.
pub proof fn law_wrapped_attributes_are_joined(
    lines: Seq<Seq<char>>,
    r: RunV,
    answers: Seq<AnswerV>,
    ctx: ContextV,
    front: Seq<char>,
    last: Seq<char>,
)
    requires
        0 <= r.i,
        r.i + 1 < lines.len(),
        front.len() > 1 && front[0] == ':' && front.last() == ' ' && front[front.len() - 2] != '+',
        lines[r.i] == front + seq!['\\'],
        lines[r.i + 1] == last,
        last.len() > 0 && !is_ws(last[0]) && !is_ws(last.last()),
        last[0] != ':' && last.last() != '\\',
    ensures
        step(lines, r, answers, ctx) matches StepV::Next(next) && next.i == r.i + 2 && next.number
            == r.number + 2 && next.used == r.used && next.warnings == r.warnings && only_adds(
            r.out,
            next.out,
            front + last,
        ) && next.attributes == after_attribute_line(r.attributes, front + last),
{
    let line = lines[r.i];
    reveal_strlit(" + \\");
    reveal_strlit(" \\");
    assert(line.subrange(line.len() - 2, line.len() as int) =~= " \\"@);
    assert(wraps(line));
    if ends_with_spec(line, " + \\"@) {
        assert(line.subrange(line.len() - 4, line.len() as int)[1] == line[line.len() - 3]);
    }
    assert(line.drop_last() =~= front);
    reveal_with_fuel(without_backslashes, 2);
    assert(wrapped_piece(line) == front);
    assert(trim_start_spec(last) =~= last);
    assert(trim_spec(last) =~= last);
    if ends_with_spec(last, " + \\"@) {
        assert(last.subrange(last.len() - 4, last.len() as int)[3] == last.last());
    }
    if ends_with_spec(last, " \\"@) {
        assert(last.subrange(last.len() - 2, last.len() as int)[1] == last.last());
    }
}

/// A text is its pieces with a line feed between two of them and none at its end.
pub proof fn law_pieces_are_joined(pieces: Seq<Seq<char>>)
    requires
        pieces.len() > 0,
    ensures
        joined(pieces).push('\n') == with_feeds(pieces),
    decreases pieces.len(),
{
    let add_feed = |line: Seq<char>| line.push('\n');
    let all = pieces.map_values(add_feed);
    let before = pieces.drop_last();
    assert(all.drop_last() =~= before.map_values(add_feed));
    assert(all.last() == pieces.last().push('\n'));
    all.lemma_flatten_and_flatten_alt_are_equivalent();
    all.drop_last().lemma_flatten_and_flatten_alt_are_equivalent();
    assert(all.flatten() == all.drop_last().flatten() + all.last());
    if pieces.len() == 1 {
        assert(all.drop_last() =~= Seq::empty());
        assert(all.flatten() =~= pieces[0].push('\n'));
    } else {
        law_pieces_are_joined(before);
        assert(joined(pieces).push('\n') =~= joined(before).push('\n') + pieces.last().push('\n'));
    }
}

proof fn lemma_index_behind(a: Seq<char>, b: Seq<char>, c: char, k: int)
    requires
        0 <= k <= b.len(),
    ensures
        index_from(a + b, c, a.len() + k) == a.len() + index_from(b, c, k),
    decreases b.len() - k,
{
    if k < b.len() && b[k] != c {
        lemma_index_behind(a, b, c, k + 1);
    }
}

proof fn lemma_lines_behind(a: Seq<char>, b: Seq<char>, k: int)
    requires
        0 <= k <= b.len(),
    ensures
        lines_from(a + b, a.len() + k) == lines_from(b, k),
    decreases b.len() - k,
{
    if k < b.len() {
        let s = a + b;
        lemma_index_from(b, '\n', k);
        lemma_index_behind(a, b, '\n', k);
        let e = index_from(b, '\n', k);
        if e < b.len() {
            lemma_lines_behind(a, b, e + 1);
            assert(s.subrange(a.len() + k, a.len() + e) =~= b.subrange(k, e));
        } else {
            assert(s.skip(a.len() + k) =~= b.skip(k));
        }
    }
}

/// Lines that were written one behind the other, each with a line feed, are read back as
/// they were written, in their order.
pub proof fn law_lines_are_read_back(lines: Seq<Seq<char>>)
    requires
        forall|k: int|
            0 <= k < lines.len() ==> !(#[trigger] lines[k]).contains('\n') && (lines[k].len() > 0
                ==> lines[k].last() != '\r'),
    ensures
        lines_spec(with_feeds(lines)) == lines,
    decreases lines.len(),
{
    let add_feed = |line: Seq<char>| line.push('\n');
    let all = lines.map_values(add_feed);
    let text = with_feeds(lines);
    if lines.len() == 0 {
        assert(all =~= Seq::empty());
    } else {
        let first = lines[0];
        let rest = lines.drop_first();
        assert forall|k: int| 0 <= k < rest.len() implies !(#[trigger] rest[k]).contains('\n') && (
        rest[k].len() > 0 ==> rest[k].last() != '\r') by {
            assert(rest[k] == lines[k + 1]);
        }
        law_lines_are_read_back(rest);
        assert(all.drop_first() =~= rest.map_values(add_feed));
        assert(all.first() == first.push('\n'));
        let tail = with_feeds(rest);
        assert(text =~= first.push('\n') + tail);
        assert(!lines[0].contains('\n'));
        assert forall|k: int| 0 <= k < first.len() implies text[k] != '\n' by {
            assert(text[k] == first[k]);
            assert(first.contains(first[k]));
        }
        lemma_index_from(text, '\n', 0);
        assert(text[first.len() as int] == '\n');
        assert(index_from(text, '\n', 0) == first.len());
        assert(text.subrange(0, first.len() as int) =~= first);
        lemma_lines_behind(first.push('\n'), tail, 0);
        assert(seq![first] + rest =~= lines);
    }
}

/// An expression that an answer tells the truth of is kept or dropped like any other
/// condition, and the answer is used up; without an answer the expression is asked for,
/// at its line and with the attributes that are in force there.
pub proof fn law_expressions_are_asked_for(
    lines: Seq<Seq<char>>,
    r: RunV,
    answers: Seq<AnswerV>,
    ctx: ContextV,
    expression: Seq<char>,
    j: int,
)
    requires
        0 <= r.i < j <= lines.len(),
        0 <= r.used <= answers.len(),
        is_directive(lines[r.i]),
        is_conditional(lines[r.i]),
        condition_of(lines[r.i]) == Some(ConditionV::Ifeval(expression)),
        forall|k: int|
            r.i < k < j ==> (#[trigger] lines[k]).len() > 0 && !starts_with_spec(
                lines[k],
                "endif"@,
            ),
        j < lines.len() ==> lines[j].len() == 0 || (starts_with_spec(lines[j], "endif"@)
            && endif_of(lines[j]) == Some(Seq::<char>::empty())),
    ensures
        r.used < answers.len() ==> (answers[r.used] matches AnswerV::Truth(truth) ==> step(
            lines,
            r,
            answers,
            ctx,
        ) matches StepV::Next(next) && next.used == r.used + 1 && next.attributes == r.attributes
            && next.warnings == r.warnings && next.out.lines == if truth {
            r.out.lines.push(with_feeds(lines.subrange(r.i + 1, j)))
        } else {
            r.out.lines
        }),
        r.used == answers.len() ==> step(lines, r, answers, ctx) == StepV::Stop(
            EndV::Needs(
                RequestV::Truth {
                    expression,
                    line_number: r.number,
                    offset: r.offset,
                    file: ctx.file,
                    attributes: r.attributes,
                },
            ),
            r.warnings,
        ),
{
    let condition = ConditionV::Ifeval(expression);
    lemma_keyword(lines[r.i]);
    law_governed_lines(lines, r.i, condition);
    let (content, e, at_end) = governed(lines, r.i, condition);
    reveal_strlit("endif");
    if e < j {
        assert(lines[e].len() > 0);
    } else if j < e {
        assert(lines[j].len() > 0);
    }
    assert(e == j);
}

/// A source is put out without the white space at the ends of its lines, line for line, where
/// no line asks for anything: none ends with a bracket or a backslash, or starts with a
/// backslash.
pub proof fn law_plain_sources_are_kept(
    lines: Seq<Seq<char>>,
    attributes: Map<Seq<char>, (ValueV, bool)>,
    answers: Seq<AnswerV>,
    ctx: ContextV,
    warnings: Seq<WarningV>,
)
    requires
        forall|k: int|
            0 <= k < lines.len() ==> !(#[trigger] lines[k]).contains('\n') && (lines[k].len() > 0
                ==> lines[k].last() != '\r'),
        forall|k: int|
            #![trigger lines_spec(normalized(with_feeds(lines)))[k]]
            0 <= k < lines_spec(normalized(with_feeds(lines))).len() ==> {
                let line = lines_spec(normalized(with_feeds(lines)))[k];
                line.len() > 0 ==> line.last() != ']' && line.last() != '\\' && line[0] != '\\'
            },
    ensures
        processed(with_feeds(lines), attributes, answers, ctx, warnings) == (
            Ok::<ProgressV, ErrorV>(
                ProgressV::Done(
                    DoneV {
                        text: joined(
                            Seq::new(lines.len(), |k: int| trim_end_spec(lines[k])),
                        ),
                        levels: Seq::empty(),
                        sources: Seq::empty(),
                        expansions: Seq::empty(),
                        drops: Seq::empty(),
                    },
                ),
            ),
            warnings,
        ),
{
    law_lines_are_read_back(lines);
    let text = normalized(with_feeds(lines));
    assert(trimmed_lines(lines) =~= Seq::new(lines.len(), |k: int| trim_end_spec(lines[k])));
    reveal_strlit(" + \\");
    reveal_strlit(" \\");
    reveal_strlit("\\include");
    reveal_strlit("\\ifdef");
    reveal_strlit("\\ifndef");
    reveal_strlit("\\ifeval");
    assert forall|k: int| 0 <= k < lines_spec(text).len() implies !is_trigger(
        #[trigger] lines_spec(text)[k],
    ) by {
        let line = lines_spec(text)[k];
        if ends_with_spec(line, " + \\"@) {
            assert(line.subrange(line.len() - 4, line.len() as int)[3] == line.last());
        }
        if ends_with_spec(line, " \\"@) {
            assert(line.subrange(line.len() - 2, line.len() as int)[1] == line.last());
        }
        if starts_with_spec(line, "\\include"@) {
            lemma_front(line, "\\include"@, 0);
        }
        if starts_with_spec(line, "\\ifdef"@) {
            lemma_front(line, "\\ifdef"@, 0);
        }
        if starts_with_spec(line, "\\ifndef"@) {
            lemma_front(line, "\\ifndef"@, 0);
        }
        if starts_with_spec(line, "\\ifeval"@) {
            lemma_front(line, "\\ifeval"@, 0);
        }
    }
    assert(passes_through(text));
}

/// A path that does not start with a slash leads into a directory, and one of nothing but
/// slashes does not.
pub proof fn law_directories_of_paths(path: Seq<char>)
    ensures
        path.len() > 0 && path[0] != '/' ==> has_parent(path),
        (forall|k: int| 0 <= k < path.len() ==> #[trigger] path[k] == '/') ==> !has_parent(path),
{
}

/// A file without a directory is refused, with its path; an error in reading it is handed on.
/// Else its text is gone through as that of a source in that file.
pub proof fn law_files_are_gone_through(
    path: Seq<char>,
    text: Result<Seq<char>, ErrorV>,
    attributes: Map<Seq<char>, (ValueV, bool)>,
    answers: Seq<AnswerV>,
    warnings: Seq<WarningV>,
)
    ensures
        !has_parent(path) ==> processed_file(path, text, attributes, answers, warnings) == (
            Err::<ProgressV, ErrorV>(
                ErrorV::InvalidIncludePath(PlaceV { file: Some(path), line: 1, column: 1 }, path),
            ),
            warnings,
        ),
        has_parent(path) ==> (text matches Err(e) ==> processed_file(
            path,
            text,
            attributes,
            answers,
            warnings,
        ) == (Err::<ProgressV, ErrorV>(e), warnings)),
        has_parent(path) ==> (text matches Ok(input) ==> processed_file(
            path,
            text,
            attributes,
            answers,
            warnings,
        ) == processed(
            input,
            attributes,
            answers,
            (ContextV { file: Some(path), depth: 0 }),
            warnings,
        )),
{
}

/// The bytes of lines are those of their text, with a line feed behind each.
pub proof fn law_bytes_of_lines(lines: Seq<Seq<char>>)
    ensures
        lines_blen(lines) == blen(with_feeds(lines)),
    decreases lines.len(),
{
    let add_feed = |line: Seq<char>| line.push('\n');
    let all = lines.map_values(add_feed);
    if lines.len() == 0 {
        assert(all =~= Seq::empty());
        assert(blen(Seq::<char>::empty()) == 0);
    } else {
        let rest = lines.drop_first();
        law_bytes_of_lines(rest);
        assert(all.drop_first() =~= rest.map_values(add_feed));
        assert(all.first() == lines[0].push('\n'));
        lemma_blen_concat(all.first(), all.drop_first().flatten());
        assert(lines[0].push('\n') =~= lines[0] + seq!['\n']);
        lemma_blen_concat(lines[0], seq!['\n']);
        lemma_blen_one('\n');
    }
}

/// Where no answer is left, a directive that asks for content is asked for: its line, with
/// where it stands and the attributes that are in force there.
pub proof fn law_content_is_asked_for(
    lines: Seq<Seq<char>>,
    r: RunV,
    answers: Seq<AnswerV>,
    ctx: ContextV,
)
    requires
        0 <= r.i < lines.len(),
        r.used == answers.len(),
        is_directive(lines[r.i]),
        starts_with_spec(lines[r.i], "include"@),
        ctx.depth < 64,
        ctx.file is Some,
        has_parent(ctx.file->Some_0),
    ensures
        step(lines, r, answers, ctx) == StepV::Stop(
            EndV::Needs(
                RequestV::Content {
                    line: lines[r.i],
                    line_number: r.number,
                    offset: r.offset,
                    file: ctx.file->Some_0,
                    depth: ctx.depth,
                    attributes: r.attributes,
                },
            ),
            r.warnings,
        ),
{
    lemma_keyword(lines[r.i]);
}

/// The text that comes of what was put out is its pieces, one behind the other with a line
/// feed between two; what was noted is handed out as it is.
pub proof fn law_text_of_what_was_put_out(out: OutV)
    ensures
        out.lines.len() > 0 ==> done_of(out).text.push('\n') == with_feeds(out.lines),
        out.lines.len() == 0 ==> done_of(out).text.len() == 0,
        done_of(out).levels == out.levels,
        done_of(out).sources == out.sources,
        done_of(out).expansions == out.expansions,
        done_of(out).drops == out.drops,
{
    if out.lines.len() > 0 {
        law_pieces_are_joined(out.lines);
    }
}

/// A line without two colons side by side asks for nothing and is put out as it is.
pub proof fn law_lines_without_colons_are_kept(
    lines: Seq<Seq<char>>,
    r: RunV,
    answers: Seq<AnswerV>,
    ctx: ContextV,
)
    requires
        0 <= r.i < lines.len(),
        lines[r.i].len() > 0 ==> lines[r.i][0] != ':',
        !contains_spec(lines[r.i], "::"@),
    ensures
        step(lines, r, answers, ctx) matches StepV::Next(next) && only_reads(r, next, 1)
            && only_adds(r.out, next.out, lines[r.i]),
{
}

/// A wrapped attribute whose line ends in a plus sign before the backslash keeps its line as it
/// is, with the line break.
pub proof fn law_hard_breaks_are_kept(
    lines: Seq<Seq<char>>,
    r: RunV,
    answers: Seq<AnswerV>,
    ctx: ContextV,
    front: Seq<char>,
    last: Seq<char>,
)
    requires
        0 <= r.i,
        r.i + 1 < lines.len(),
        front.len() > 0 && front[0] == ':',
        lines[r.i] == front + " + \\"@,
        lines[r.i + 1] == last,
        last.len() > 0 && !is_ws(last[0]) && !is_ws(last.last()),
        last[0] != ':' && last.last() != '\\',
    ensures
        step(lines, r, answers, ctx) matches StepV::Next(next) && next.i == r.i + 2 && next.number
            == r.number + 2 && only_adds(
            r.out,
            next.out,
            front + " + \\"@ + seq!['\n'] + last,
        ) && next.attributes == after_attribute_line(
            r.attributes,
            front + " + \\"@ + seq!['\n'] + last,
        ),
{
    let line = lines[r.i];
    reveal_strlit(" + \\");
    reveal_strlit(" \\");
    assert(line.subrange(line.len() - 4, line.len() as int) =~= " + \\"@);
    assert(wraps(line));
    assert(trim_start_spec(last) =~= last);
    assert(trim_spec(last) =~= last);
    if ends_with_spec(last, " + \\"@) {
        assert(last.subrange(last.len() - 4, last.len() as int)[3] == last.last());
    }
    if ends_with_spec(last, " \\"@) {
        assert(last.subrange(last.len() - 2, last.len() as int)[1] == last.last());
    }
}

/// An empty line or another attribute ends a wrapped attribute.
pub proof fn law_wrapped_attributes_end(
    lines: Seq<Seq<char>>,
    r: RunV,
    answers: Seq<AnswerV>,
    ctx: ContextV,
    front: Seq<char>,
)
    requires
        0 <= r.i < lines.len(),
        front.len() > 1 && front[0] == ':' && front.last() == ' ' && front[front.len() - 2] != '+',
        lines[r.i] == front + seq!['\\'],
        r.i + 1 < lines.len() ==> lines[r.i + 1].len() == 0 || (lines[r.i + 1][0] == ':'
            && !is_ws(lines[r.i + 1].last())),
    ensures
        step(lines, r, answers, ctx) matches StepV::Next(next) && next.i == r.i + 1 && next.number
            == r.number + 1 && only_adds(r.out, next.out, front) && next.attributes
            == after_attribute_line(r.attributes, front),
{
    let line = lines[r.i];
    reveal_strlit(" + \\");
    reveal_strlit(" \\");
    assert(line.subrange(line.len() - 2, line.len() as int) =~= " \\"@);
    assert(wraps(line));
    if ends_with_spec(line, " + \\"@) {
        assert(line.subrange(line.len() - 4, line.len() as int)[1] == line[line.len() - 3]);
    }
    assert(line.drop_last() =~= front);
    reveal_with_fuel(without_backslashes, 2);
    assert(wrapped_piece(line) == front);
    if r.i + 1 < lines.len() {
        let next = lines[r.i + 1];
        assert(trim_start_spec(next) =~= next);
        assert(trim_spec(next) =~= next);
    }
}

/// A condition that cannot be read is an error at its line, and an end that cannot be read is
/// one at the line of the end.
pub proof fn law_malformed_conditions(
    lines: Seq<Seq<char>>,
    r: RunV,
    answers: Seq<AnswerV>,
    ctx: ContextV,
    j: int,
)
    requires
        0 <= r.i < j < lines.len(),
        is_directive(lines[r.i]),
        is_conditional(lines[r.i]),
    ensures
        condition_of(lines[r.i]) is None ==> step(lines, r, answers, ctx) == StepV::Stop(
            EndV::Failed(
                ErrorV::InvalidConditionalDirective(
                    PlaceV { file: ctx.file, line: r.number, column: 1 },
                ),
            ),
            r.warnings,
        ),
        condition_of(lines[r.i]) is Some && own_content(condition_of(lines[r.i])->Some_0) is None
            && (forall|k: int|
            r.i < k < j ==> (#[trigger] lines[k]).len() > 0 && !starts_with_spec(
                lines[k],
                "endif"@,
            )) && starts_with_spec(lines[j], "endif"@) && endif_of(lines[j]) is None ==> step(
            lines,
            r,
            answers,
            ctx,
        ) == StepV::Stop(
            EndV::Failed(
                ErrorV::InvalidConditionalDirective(
                    PlaceV { file: ctx.file, line: r.number + (j - r.i), column: 1 },
                ),
            ),
            r.warnings,
        ),
{
    lemma_keyword(lines[r.i]);
    if condition_of(lines[r.i]) is Some && own_content(condition_of(lines[r.i])->Some_0) is None
        && (forall|k: int|
        r.i < k < j ==> (#[trigger] lines[k]).len() > 0 && !starts_with_spec(lines[k], "endif"@))
        && starts_with_spec(lines[j], "endif"@) {
        let condition = condition_of(lines[r.i])->Some_0;
        law_governed_lines(lines, r.i, condition);
        let (content, e, at_end) = governed(lines, r.i, condition);
        reveal_strlit("endif");
        lemma_front(lines[j], "endif"@, 0);
        if e < j {
            assert(lines[e].len() > 0);
        } else if j < e {
            assert(lines[j].len() > 0);
        }
    }
}

/// The lines of a condition that have none in the text are noted where the source itself is
/// gone through: all of them where it does not hold, its own where it holds up to an end. In
/// the content of a file nothing is noted.
pub proof fn law_lost_lines_are_noted(
    lines: Seq<Seq<char>>,
    r: RunV,
    answers: Seq<AnswerV>,
    ctx: ContextV,
    condition: ConditionV,
    j: int,
    truth: bool,
)
    requires
        0 <= r.i < j < lines.len(),
        is_directive(lines[r.i]),
        is_conditional(lines[r.i]),
        condition_of(lines[r.i]) == Some(condition),
        own_content(condition) is None,
        holds(condition, r.attributes) == Some(truth),
        forall|k: int| 0 <= k < lines.len() ==> !(#[trigger] lines[k]).contains('\n'),
        forall|k: int|
            r.i < k < j ==> (#[trigger] lines[k]).len() > 0 && !starts_with_spec(
                lines[k],
                "endif"@,
            ),
        starts_with_spec(lines[j], "endif"@),
        endif_of(lines[j]) == Some(Seq::<char>::empty()),
    ensures
        step(lines, r, answers, ctx) matches StepV::Next(next) && next.out.drops == (if ctx.depth
            != 0 {
            r.out.drops
        } else if truth {
            r.out.drops.push(r.number)
        } else {
            r.out.drops + Seq::new((j + 1 - r.i) as nat, |k: int| r.number + k)
        }),
{
    lemma_keyword(lines[r.i]);
    law_governed_lines(lines, r.i, condition);
    law_lost_lines(lines, r.i, condition, r.number, truth);
    let (content, e, at_end) = governed(lines, r.i, condition);
    reveal_strlit("endif");
    lemma_front(lines[j], "endif"@, 0);
    if e < j {
        assert(lines[e].len() > 0);
    } else if j < e {
        assert(lines[j].len() > 0);
    }
    assert(e == j && at_end);
    assert(r.out.drops + seq![r.number] =~= r.out.drops.push(r.number));
}

/// A text is put out as it is only where none of its lines is a directive that asks for
/// something, an escaped directive or a wrapped attribute.
pub proof fn law_what_is_not_passed_through(text: Seq<char>, k: int)
    requires
        passes_through(text),
        0 <= k < lines_spec(text).len(),
    ensures
        ({
            let line = lines_spec(text)[k];
            &&& is_directive(line) ==> !starts_with_spec(line, "include"@) && !starts_with_spec(
                line,
                "ifdef"@,
            ) && !starts_with_spec(line, "ifndef"@) && !starts_with_spec(line, "ifeval"@)
            &&& !starts_with_spec(line, "\\include"@)
            &&& !starts_with_spec(line, "\\ifdef"@)
            &&& !starts_with_spec(line, "\\ifndef"@)
            &&& !starts_with_spec(line, "\\ifeval"@)
            &&& line.len() > 0 && line[0] == ':' ==> !ends_with_spec(line, " \\"@)
        }),
{
    assert(!is_trigger(lines_spec(text)[k]));
}

/// A directive is a line that ends with a bracket, does not begin with one, and has two colons
/// side by side.
pub proof fn law_directives(front: Seq<char>, back: Seq<char>)
    requires
        front.len() > 0,
    ensures
        is_directive(front + seq![':', ':'] + back + seq![']']) == (front[0] != '['),
        !is_directive(front + seq![':', ':'] + back + seq![']', ' ']),
{
    let line = front + seq![':', ':'] + back + seq![']'];
    let n = front.len() as int;
    reveal_strlit("::");
    assert(line.subrange(n, n + 2) =~= "::"@);
    assert(matches_at(line, "::"@, n));
    assert(line.last() == ']');
    let other = front + seq![':', ':'] + back + seq![']', ' '];
    assert(other.last() == ' ');
}

} // verus!

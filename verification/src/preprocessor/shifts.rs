//! How the lines of a text lie to those of its source.
//!
//! Whoever shows a source beside its text has to find a line of the one in the
//! other. What is known of the directives is enough for that, but for attributes
//! that are wrapped over several lines.

use crate::attributes::ValueV;
use crate::error::WarningV;
use crate::preprocessor::attribute::after_attribute_line;
use crate::preprocessor::conditional::{condition_of, directive_parts, own_content};
use crate::preprocessor::normalize::{joined, lemma_line_holds_no_feed, normalized};
use crate::preprocessor::process::{
    conditional_step, content_at, content_step, decided, done_of, feeds, governed, is_attribute,
    kept_of, lemma_body, lemma_body_feeds, lemma_feeds_concat, lemma_no_feeds, lemma_step_advances,
    line_out, run, run_start, step, wrapped, wrapped_piece, wraps, AnswerV, ContextV, EndV, OutV,
    RunV, StepV,
};
use crate::text::{index_from, lemma_index_from, lines_spec, trim_spec};
use vstd::prelude::*;

verus! {

/// The number of lines that pieces of text take, one behind the other. A piece with
/// a line feed takes a line more.
pub open spec fn lines_taken(pieces: Seq<Seq<char>>) -> int
    decreases pieces.len(),
{
    if pieces.len() == 0 {
        0
    } else {
        lines_taken(pieces.drop_last()) + feeds(pieces.last()) + 1
    }
}

/// The lines that directives brought in beyond their own.
pub open spec fn lines_brought(expansions: Seq<(int, int)>) -> int
    decreases expansions.len(),
{
    if expansions.len() == 0 {
        0
    } else {
        lines_brought(expansions.drop_last()) + expansions.last().1 - 1
    }
}

/// The lines of the source that wrapped attributes take in excess of those in the
/// text.
pub open spec fn lines_merged(
    lines: Seq<Seq<char>>,
    r: RunV,
    answers: Seq<AnswerV>,
    ctx: ContextV,
) -> int
    decreases lines.len() - r.i,
    via lines_merged_ends
{
    if r.i < 0 || r.i >= lines.len() {
        0
    } else {
        match step(lines, r, answers, ctx) {
            StepV::Next(next) => step_merged(lines, r, next) + lines_merged(
                lines,
                next,
                answers,
                ctx,
            ),
            StepV::Stop(_, _) => 0,
        }
    }
}

#[via_fn]
proof fn lines_merged_ends(
    lines: Seq<Seq<char>>,
    r: RunV,
    answers: Seq<AnswerV>,
    ctx: ContextV,
) {
    if 0 <= r.i < lines.len() {
        lemma_step_advances(lines, r, answers, ctx);
    }
}

/// The lines that one step merges: none, unless it takes a wrapped attribute.
pub open spec fn step_merged(lines: Seq<Seq<char>>, r: RunV, next: RunV) -> int {
    if is_attribute(lines[r.i]) && wraps(lines[r.i]) {
        (next.i - r.i) - (feeds(next.out.lines.last()) + 1)
    } else {
        0
    }
}

/// Whether the content of each answer is made of single lines.
pub open spec fn are_lines(answers: Seq<AnswerV>) -> bool {
    forall|a: int, k: int|
        #![trigger answers[a]->Content_0.lines[k]]
        0 <= a < answers.len() && answers[a] is Content && 0 <= k
            < answers[a]->Content_0.lines.len() ==> !answers[a]->Content_0.lines[k].contains('\n')
}

/// The lines that were put out and lost, less those that directives brought in.
pub open spec fn balance(out: OutV) -> int {
    lines_taken(out.lines) + out.drops.len() - lines_brought(out.expansions)
}

proof fn lemma_push_taken(pieces: Seq<Seq<char>>, piece: Seq<char>)
    ensures
        lines_taken(pieces.push(piece)) == lines_taken(pieces) + feeds(piece) + 1,
{
    assert(pieces.push(piece).drop_last() =~= pieces);
}

proof fn lemma_push_brought(expansions: Seq<(int, int)>, e: (int, int))
    ensures
        lines_brought(expansions.push(e)) == lines_brought(expansions) + e.1 - 1,
{
    assert(expansions.push(e).drop_last() =~= expansions);
}

proof fn lemma_single_lines(pieces: Seq<Seq<char>>, more: Seq<Seq<char>>)
    requires
        forall|k: int| 0 <= k < more.len() ==> !(#[trigger] more[k]).contains('\n'),
    ensures
        lines_taken(pieces + more) == lines_taken(pieces) + more.len(),
    decreases more.len(),
{
    if more.len() == 0 {
        assert(pieces + more =~= pieces);
    } else {
        let before = more.drop_last();
        assert forall|k: int| 0 <= k < before.len() implies !(#[trigger] before[k]).contains(
            '\n',
        ) by {
            assert(before[k] == more[k]);
        }
        lemma_single_lines(pieces, before);
        assert((pieces + more).drop_last() =~= pieces + before);
        assert(!more[more.len() - 1].contains('\n'));
        lemma_no_feeds(more.last());
    }
}

/// The text that a condition holds itself is a part of its line.
proof fn lemma_own_content(line: Seq<char>)
    requires
        !line.contains('\n'),
        condition_of(line) is Some,
        own_content(condition_of(line)->Some_0) is Some,
    ensures
        feeds(own_content(condition_of(line)->Some_0)->Some_0) == 0,
{
    let own = own_content(condition_of(line)->Some_0)->Some_0;
    let keyword = if directive_parts(line, "ifdef::"@) is Some {
        "ifdef::"@
    } else {
        "ifndef::"@
    };
    assert(directive_parts(line, keyword)->Some_0.1 == own);
    let from = keyword.len() as int;
    lemma_index_from(line, '[', from);
    assert forall|k: int| 0 <= k < own.len() implies own[k] != '\n' by {
        let at = index_from(line, '[', from) + 1 + k;
        assert(own[k] == line[at]);
        assert(line.contains(line[at]));
    }
    lemma_no_feeds(own);
}

proof fn lemma_line_balance(r: RunV, line: Seq<char>, text: Seq<char>)
    requires
        feeds(text) == 0,
    ensures
        balance(line_out(r, line, text).out) == balance(r.out) + 1,
{
    lemma_push_taken(r.out.lines, text);
}

proof fn lemma_decided_balance(
    lines: Seq<Seq<char>>,
    r: RunV,
    j: int,
    kept: Option<Seq<char>>,
    used: int,
    ctx: ContextV,
)
    requires
        ctx.depth == 0,
        r.i < j,
        kept matches Some(content) ==> feeds(content) + 1 <= j - r.i,
    ensures
        balance(decided(lines, r, j, kept, used, ctx).out) == balance(r.out) + (j - r.i),
{
    if kept is Some {
        lemma_push_taken(r.out.lines, kept->Some_0);
    }
}

proof fn lemma_conditional_balance(
    lines: Seq<Seq<char>>,
    r: RunV,
    answers: Seq<AnswerV>,
    ctx: ContextV,
)
    requires
        ctx.depth == 0,
        0 <= r.i < lines.len(),
        forall|k: int| 0 <= k < lines.len() ==> !(#[trigger] lines[k]).contains('\n'),
    ensures
        conditional_step(lines, r, answers, ctx) matches StepV::Next(next) ==> balance(next.out)
            == balance(r.out) + (next.i - r.i),
{
    let line = lines[r.i];
    lemma_body(lines, r.i + 1, Seq::empty());
    lemma_body_feeds(lines, r.i + 1, Seq::empty());
    assert(feeds(Seq::<char>::empty()) == 0);
    match condition_of(line) {
        Some(condition) => {
            let (content, j, at_end) = governed(lines, r.i, condition);
            if own_content(condition) is Some {
                lemma_own_content(line);
            }
            let k = if at_end {
                j + 1
            } else {
                j
            };
            let no = kept_of(condition, content, false);
            let yes = kept_of(condition, content, true);
            lemma_decided_balance(lines, r, k, no, r.used, ctx);
            lemma_decided_balance(lines, r, k, yes, r.used, ctx);
            lemma_decided_balance(lines, r, k, no, r.used + 1, ctx);
            lemma_decided_balance(lines, r, k, yes, r.used + 1, ctx);
        },
        None => {},
    }
}

proof fn lemma_content_balance(
    lines: Seq<Seq<char>>,
    r: RunV,
    answers: Seq<AnswerV>,
    ctx: ContextV,
)
    requires
        ctx.depth == 0,
        0 <= r.i < lines.len(),
        are_lines(answers),
    ensures
        content_step(lines, r, answers, ctx) matches StepV::Next(next) ==> balance(next.out)
            == balance(r.out) + (next.i - r.i),
{
    lemma_push_brought(r.out.expansions, (r.number, 0));
    match content_at(answers, r.used) {
        Some(content) => {
            assert forall|k: int| 0 <= k < content.lines.len() implies !(
            #[trigger] content.lines[k]).contains('\n') by {
                assert(answers[r.used]->Content_0.lines[k] == content.lines[k]);
            }
            lemma_single_lines(r.out.lines, content.lines);
            lemma_push_brought(r.out.expansions, (r.number, content.lines.len() as int));
        },
        None => {},
    }
}

/// Each step keeps the balance.
proof fn lemma_step_balance(
    lines: Seq<Seq<char>>,
    r: RunV,
    answers: Seq<AnswerV>,
    ctx: ContextV,
)
    requires
        ctx.depth == 0,
        0 <= r.i < lines.len(),
        forall|k: int| 0 <= k < lines.len() ==> !(#[trigger] lines[k]).contains('\n'),
        are_lines(answers),
    ensures
        step(lines, r, answers, ctx) matches StepV::Next(next) ==> balance(next.out) + step_merged(
            lines,
            r,
            next,
        ) == balance(r.out) + (next.i - r.i),
{
    let line = lines[r.i];
    if is_attribute(line) && wraps(line) {
        let content = wrapped(lines, r.i + 1, wrapped_piece(line)).0;
        lemma_push_taken(r.out.lines, content);
        assert(r.out.lines.push(content).last() == content);
    } else {
        let now = if is_attribute(line) {
            RunV { attributes: after_attribute_line(r.attributes, trim_spec(line)), ..r }
        } else {
            r
        };
        let rest = line.drop_first();
        lemma_no_feeds(line);
        if line.len() > 0 {
            assert forall|k: int| 0 <= k < rest.len() implies rest[k] != '\n' by {
                assert(line.contains(line[k + 1]));
            }
            lemma_no_feeds(rest);
            lemma_line_balance(now, line, rest);
        }
        lemma_line_balance(now, line, line);
        lemma_conditional_balance(lines, now, answers, ctx);
        lemma_content_balance(lines, now, answers, ctx);
    }
}

proof fn lemma_joined_feeds(pieces: Seq<Seq<char>>)
    requires
        pieces.len() > 0,
    ensures
        feeds(joined(pieces)) + 1 == lines_taken(pieces),
    decreases pieces.len(),
{
    let before = pieces.drop_last();
    let one = seq!['\n'];
    assert(one.drop_last() =~= Seq::<char>::empty());
    assert(feeds(Seq::<char>::empty()) == 0);
    assert(feeds(one) == 1);
    if pieces.len() == 1 {
        assert(lines_taken(before) == 0);
    } else {
        lemma_joined_feeds(before);
        lemma_feeds_concat(joined(before) + one, pieces.last());
        lemma_feeds_concat(joined(before), one);
    }
}

/// Every line of a source is accounted for: those that were put out and those that
/// conditions lost are as many as the source has, with those more that directives
/// brought in, but for the lines that wrapped attributes merge.
pub proof fn law_lines_are_accounted_for(
    lines: Seq<Seq<char>>,
    r: RunV,
    answers: Seq<AnswerV>,
    ctx: ContextV,
)
    requires
        ctx.depth == 0,
        0 <= r.i <= lines.len(),
        forall|k: int| 0 <= k < lines.len() ==> !(#[trigger] lines[k]).contains('\n'),
        are_lines(answers),
    ensures
        run(lines, r, answers, ctx).0 matches EndV::Done(out) ==> lines_taken(out.lines)
            + out.drops.len() + lines_merged(lines, r, answers, ctx) == balance(r.out) + (
        lines.len() - r.i) + lines_brought(out.expansions),
    decreases lines.len() - r.i,
{
    if r.i < lines.len() {
        lemma_step_advances(lines, r, answers, ctx);
        lemma_step_balance(lines, r, answers, ctx);
        match step(lines, r, answers, ctx) {
            StepV::Next(next) => law_lines_are_accounted_for(lines, next, answers, ctx),
            StepV::Stop(_, _) => {},
        }
    }
}

/// The same of a whole source and its text: the text has as many lines as the source,
/// less those that conditions lost and wrapped attributes merge, and with those more
/// that directives brought in. (A text for which nothing was put out has none.)
pub proof fn law_text_lines_are_accounted_for(
    input: Seq<char>,
    attributes: Map<Seq<char>, (ValueV, bool)>,
    answers: Seq<AnswerV>,
    file: Option<Seq<char>>,
    warnings: Seq<WarningV>,
)
    requires
        are_lines(answers),
    ensures
        ({
            let lines = lines_spec(normalized(input));
            let start = run_start(attributes, warnings);
            let ctx = ContextV { file, depth: 0 };
            run(lines, start, answers, ctx).0 matches EndV::Done(out) ==> (out.lines.len() > 0
                ==> feeds(done_of(out).text) + 1 == lines.len() - out.drops.len() - lines_merged(
                lines,
                start,
                answers,
                ctx,
            ) + lines_brought(out.expansions))
        }),
{
    let text = normalized(input);
    let lines = lines_spec(text);
    let start = run_start(attributes, warnings);
    let ctx = ContextV { file, depth: 0 };
    assert forall|k: int| 0 <= k < lines.len() implies !(#[trigger] lines[k]).contains('\n') by {
        lemma_line_holds_no_feed(text, 0, k);
    }
    law_lines_are_accounted_for(lines, start, answers, ctx);
    match run(lines, start, answers, ctx).0 {
        EndV::Done(out) => if out.lines.len() > 0 {
            lemma_joined_feeds(out.lines);
        },
        _ => {},
    }
}

} // verus!

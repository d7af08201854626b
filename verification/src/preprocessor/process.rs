//! Going through a source line by line.
//!
//! What a directive needs from outside, the content of another file or the value of
//! an expression, is asked for: the answers that were given so far are handed in
//! again, and the source is gone through up to the first question that is left.

use crate::attributes::{DocumentAttributes, ValueV};
use crate::error::{
    opt_view, place_of, Error, ErrorV, PlaceV, SourceLocation, Warning, WarningV,
};
use crate::file_resolver::FileResolverError;
use crate::options::Options;
use crate::preprocessor::attribute::{self, after_attribute_line};
use crate::preprocessor::conditional::{
    self, closes, condition_of, endif_of, holds, own_content, Conditional, ConditionV,
};
use crate::preprocessor::decode::{decode_read, read_text};
use crate::preprocessor::normalize::{
    join_lines, joined, law_normalized_is_its_lines, needs_rebuild, normalize, normalized,
    without_last_ending,
};
use crate::table::limits::saturated;
use crate::text::{
    blen, byte_len, chars_of, contains, contains_spec, ends_with, ends_with_spec,
    lemma_lines_blen_split, lemma_lines_blen_step, lines, lines_blen, lines_spec, starts_with,
    starts_with_spec, trim, trim_spec, trim_start_spec,
};
use std::borrow::Cow;
use vstd::prelude::*;
use vstd::string::*;

verus! {

/// How deep files may be nested: a file at this depth gets no further content.
pub const MAX_INCLUDE_DEPTH: usize = 64;

/// Bytes of the text in which sections are moved by some levels.
#[derive(Clone, Copy, Debug, PartialEq, Eq, Structural)]
pub struct LeveloffsetRange {
    pub start_offset: usize,
    pub end_offset: usize,
    pub value: isize,
}

/// Bytes of the text that come from another file.
#[derive(Debug)]
pub struct SourceRange {
    pub start_offset: usize,
    pub end_offset: usize,
    pub file: String,
    pub start_line: usize,
}

/// A directive of the source itself that asked for the content of a file: its line,
/// and the number of lines that stand in its place.
#[derive(Clone, Copy, Debug, PartialEq, Eq, Structural)]
pub struct IncludeExpansion {
    /// The line of the directive, counted from 1.
    pub source_line: usize,
    /// The number of lines that stand in its place; 0 where there is no content.
    pub expanded_lines: usize,
}

/// The content of a file, as it was read for a directive. The ranges are those of
/// the files that it draws on, with offsets in this content; the warnings are those
/// that reading it gave.
#[derive(Debug)]
pub struct IncludeResult {
    pub lines: Vec<String>,
    pub effective_leveloffset: Option<isize>,
    pub nested_leveloffset_ranges: Vec<LeveloffsetRange>,
    pub file: Option<String>,
    pub nested_source_ranges: Vec<SourceRange>,
    pub warnings: Vec<Warning>,
}

/// What a directive needs from outside, with the attributes in force where it stands.
#[derive(Debug)]
pub enum Request {
    /// The content that the directive on this line of this file asks for, which is
    /// read for a source at this depth.
    Content {
        line: String,
        line_number: usize,
        offset: usize,
        file: String,
        depth: usize,
        attributes: DocumentAttributes<'static>,
    },
    /// Whether the expression of the directive on this line of this file holds.
    Truth {
        expression: String,
        line_number: usize,
        offset: usize,
        file: Option<String>,
        attributes: DocumentAttributes<'static>,
    },
}

/// What came from outside.
#[derive(Debug)]
pub enum Answer {
    Content(IncludeResult),
    Truth(bool),
}

/// The text to parse, with what is known of where it comes from.
#[derive(Debug)]
pub struct PreprocessorResult<'a> {
    pub text: Cow<'a, str>,
    pub leveloffset_ranges: Vec<LeveloffsetRange>,
    pub source_ranges: Vec<SourceRange>,
    pub include_expansions: Vec<IncludeExpansion>,
    /// The lines of the source that conditionals took without a line in the text.
    pub conditional_drops: Vec<usize>,
}

/// How far a source was gone through: to its end, or to the first question that
/// there is no answer to yet.
#[derive(Debug)]
pub enum Progress<'a> {
    Done(PreprocessorResult<'a>),
    Needs(Request),
}

// ---------------------------------------------------------------------------
// What these are.
// ---------------------------------------------------------------------------

impl DeepView for LeveloffsetRange {
    type V = (int, int, int);

    open spec fn deep_view(&self) -> (int, int, int) {
        (self.start_offset as int, self.end_offset as int, self.value as int)
    }
}

impl DeepView for SourceRange {
    type V = (int, int, Seq<char>, int);

    open spec fn deep_view(&self) -> (int, int, Seq<char>, int) {
        (self.start_offset as int, self.end_offset as int, self.file@, self.start_line as int)
    }
}

impl DeepView for IncludeExpansion {
    type V = (int, int);

    open spec fn deep_view(&self) -> (int, int) {
        (self.source_line as int, self.expanded_lines as int)
    }
}

/// The content of a file.
#[verifier::ext_equal]
pub struct ContentV {
    pub lines: Seq<Seq<char>>,
    pub leveloffset: Option<isize>,
    pub levels: Seq<(int, int, int)>,
    pub file: Option<Seq<char>>,
    pub sources: Seq<(int, int, Seq<char>, int)>,
    pub warnings: Seq<WarningV>,
}

/// A text that may be missing.
pub open spec fn opt_string(s: Option<String>) -> Option<Seq<char>> {
    match s {
        Some(t) => Some(t@),
        None => None,
    }
}

impl DeepView for IncludeResult {
    type V = ContentV;

    open spec fn deep_view(&self) -> ContentV {
        ContentV {
            lines: self.lines.deep_view(),
            leveloffset: self.effective_leveloffset,
            levels: self.nested_leveloffset_ranges.deep_view(),
            file: opt_string(self.file),
            sources: self.nested_source_ranges.deep_view(),
            warnings: self.warnings.deep_view(),
        }
    }
}

/// An answer.
#[verifier::ext_equal]
pub enum AnswerV {
    Content(ContentV),
    Truth(bool),
}

impl DeepView for Answer {
    type V = AnswerV;

    open spec fn deep_view(&self) -> AnswerV {
        match self {
            Answer::Content(r) => AnswerV::Content(r.deep_view()),
            Answer::Truth(b) => AnswerV::Truth(*b),
        }
    }
}

/// A question.
#[verifier::ext_equal]
pub enum RequestV {
    Content {
        line: Seq<char>,
        line_number: int,
        offset: int,
        file: Seq<char>,
        depth: int,
        attributes: Map<Seq<char>, (ValueV, bool)>,
    },
    Truth {
        expression: Seq<char>,
        line_number: int,
        offset: int,
        file: Option<Seq<char>>,
        attributes: Map<Seq<char>, (ValueV, bool)>,
    },
}

impl DeepView for Request {
    type V = RequestV;

    open spec fn deep_view(&self) -> RequestV {
        match self {
            Request::Content { line, line_number, offset, file, depth, attributes } => {
                RequestV::Content {
                    line: line@,
                    line_number: *line_number as int,
                    offset: *offset as int,
                    file: file@,
                    depth: *depth as int,
                    attributes: attributes@,
                }
            },
            Request::Truth { expression, line_number, offset, file, attributes } => {
                RequestV::Truth {
                    expression: expression@,
                    line_number: *line_number as int,
                    offset: *offset as int,
                    file: opt_string(*file),
                    attributes: attributes@,
                }
            },
        }
    }
}

/// What was put out: the lines, the bytes that they take with a line feed behind
/// each, and what is known of them.
#[verifier::ext_equal]
pub struct OutV {
    pub lines: Seq<Seq<char>>,
    pub bytes: int,
    pub levels: Seq<(int, int, int)>,
    pub sources: Seq<(int, int, Seq<char>, int)>,
    pub expansions: Seq<(int, int)>,
    pub drops: Seq<int>,
}

/// The text to parse, with what is known of it.
#[verifier::ext_equal]
pub struct DoneV {
    pub text: Seq<char>,
    pub levels: Seq<(int, int, int)>,
    pub sources: Seq<(int, int, Seq<char>, int)>,
    pub expansions: Seq<(int, int)>,
    pub drops: Seq<int>,
}

/// How far a source was gone through.
#[verifier::ext_equal]
pub enum ProgressV {
    Done(DoneV),
    Needs(RequestV),
}

impl<'a> DeepView for PreprocessorResult<'a> {
    type V = DoneV;

    open spec fn deep_view(&self) -> DoneV {
        DoneV {
            text: self.text@,
            levels: self.leveloffset_ranges.deep_view(),
            sources: self.source_ranges.deep_view(),
            expansions: self.include_expansions.deep_view(),
            drops: self.conditional_drops@.map_values(|n: usize| n as int),
        }
    }
}

impl<'a> DeepView for Progress<'a> {
    type V = ProgressV;

    open spec fn deep_view(&self) -> ProgressV {
        match self {
            Progress::Done(d) => ProgressV::Done(d.deep_view()),
            Progress::Needs(q) => ProgressV::Needs(q.deep_view()),
        }
    }
}

/// Where a source comes from: its file, and how deep it is nested.
pub struct ContextV {
    pub file: Option<Seq<char>>,
    pub depth: int,
}

// ---------------------------------------------------------------------------
// Lines.
// ---------------------------------------------------------------------------

/// A directive that is escaped by a backslash.
pub open spec fn is_escaped(line: Seq<char>) -> bool {
    ||| starts_with_spec(line, "\\include"@)
    ||| starts_with_spec(line, "\\ifdef"@)
    ||| starts_with_spec(line, "\\ifndef"@)
    ||| starts_with_spec(line, "\\ifeval"@)
}

/// The start of a conditional directive.
pub open spec fn is_conditional(line: Seq<char>) -> bool {
    ||| starts_with_spec(line, "ifdef"@)
    ||| starts_with_spec(line, "ifndef"@)
    ||| starts_with_spec(line, "ifeval"@)
}

/// A line in the form of a directive.
pub open spec fn is_directive(line: Seq<char>) -> bool {
    &&& line.len() > 0
    &&& line.last() == ']'
    &&& line[0] != '['
    &&& contains_spec(line, "::"@)
}

/// An attribute that goes on behind its line, with a line break (`" + \"`).
pub open spec fn wraps_hard(line: Seq<char>) -> bool {
    ends_with_spec(line, " + \\"@)
}

/// An attribute that goes on behind its line (`" \"`).
pub open spec fn wraps(line: Seq<char>) -> bool {
    wraps_hard(line) || ends_with_spec(line, " \\"@)
}

/// An attribute line.
pub open spec fn is_attribute(line: Seq<char>) -> bool {
    line.len() > 0 && line[0] == ':'
}

/// A line that is not put out as it is, or with others.
pub open spec fn is_trigger(line: Seq<char>) -> bool {
    ||| is_escaped(line)
    ||| is_attribute(line) && wraps(line)
    ||| is_directive(line) && (is_conditional(line) || starts_with_spec(line, "include"@))
}

/// Whether a text is put out as it is.
pub open spec fn passes_through(text: Seq<char>) -> bool {
    forall|k: int|
        0 <= k < lines_spec(text).len() ==> !is_trigger(#[trigger] lines_spec(text)[k])
}

/// The number of characters at the front that are all `c`.
pub open spec fn run_of(s: Seq<char>, c: char) -> int
    decreases s.len(),
{
    if s.len() == 0 || s[0] != c {
        0
    } else {
        1 + run_of(s.drop_first(), c)
    }
}

/// The delimiter of a block whose lines are kept as they are, if the line is one.
pub open spec fn delimiter_of(line: Seq<char>) -> Option<Seq<char>> {
    let t = trim_spec(line);
    if starts_with_spec(t, "```"@) {
        Some("```"@)
    } else if t.len() > 0 && (t[0] == '-' || t[0] == '.' || t[0] == '+') && run_of(t, t[0]) >= 4 {
        Some(t.take(run_of(t, t[0])))
    } else {
        None
    }
}

/// A text without the backslashes at its end.
pub open spec fn without_backslashes(s: Seq<char>) -> Seq<char>
    decreases s.len(),
{
    if s.len() > 0 && s.last() == '\\' {
        without_backslashes(s.drop_last())
    } else {
        s
    }
}

/// What a line of a wrapped attribute adds to it.
pub open spec fn wrapped_piece(line: Seq<char>) -> Seq<char> {
    if wraps_hard(line) {
        line + seq!['\n']
    } else {
        without_backslashes(line)
    }
}

/// The attribute with the lines from `j` on that belong to it, and the line behind
/// them.
pub open spec fn wrapped(lines: Seq<Seq<char>>, j: int, content: Seq<char>) -> (Seq<char>, int)
    decreases lines.len() - j,
{
    if j >= lines.len() {
        (content, j)
    } else {
        let t = trim_spec(lines[j]);
        if t.len() == 0 || t[0] == ':' {
            (content, j)
        } else if wraps(t) {
            wrapped(lines, j + 1, content + wrapped_piece(t))
        } else {
            (content + t, j + 1)
        }
    }
}

/// The lines from `j` on that a condition governs, the line behind them, and whether
/// that line is an end. An empty line ends them too.
pub open spec fn body(lines: Seq<Seq<char>>, j: int, content: Seq<char>) -> (Seq<char>, int, bool)
    decreases lines.len() - j,
{
    if j >= lines.len() || lines[j].len() == 0 {
        (content, j, false)
    } else if starts_with_spec(lines[j], "endif"@) {
        (content, j, true)
    } else {
        body(lines, j + 1, content + lines[j] + seq!['\n'])
    }
}

// ---------------------------------------------------------------------------
// Putting out.
// ---------------------------------------------------------------------------

/// What was put out, with one line more.
pub open spec fn pushed(out: OutV, line: Seq<char>) -> OutV {
    OutV { lines: out.lines.push(line), bytes: saturated(out.bytes + blen(line) + 1), ..out }
}

/// Ranges of levels, moved by some bytes.
pub open spec fn moved_levels(levels: Seq<(int, int, int)>, by: int) -> Seq<(int, int, int)> {
    Seq::new(
        levels.len(),
        |k: int| (saturated(levels[k].0 + by), saturated(levels[k].1 + by), levels[k].2),
    )
}

/// Ranges of sources, moved by some bytes.
pub open spec fn moved_sources(sources: Seq<(int, int, Seq<char>, int)>, by: int) -> Seq<
    (int, int, Seq<char>, int),
> {
    Seq::new(
        sources.len(),
        |k: int|
            (
                saturated(sources[k].0 + by),
                saturated(sources[k].1 + by),
                sources[k].2,
                sources[k].3,
            ),
    )
}

/// What was put out, with the content that a directive on the line `line` asked
/// for. `root` tells that the directive stands in the source itself.
pub open spec fn with_content(out: OutV, content: ContentV, line: int, root: bool) -> OutV {
    let start = out.bytes;
    let end = saturated(start + saturated(lines_blen(content.lines) as int));
    OutV {
        lines: out.lines + content.lines,
        bytes: end,
        levels: (if content.leveloffset is Some && content.leveloffset->Some_0 != 0 {
            out.levels.push((start, end, content.leveloffset->Some_0 as int))
        } else {
            out.levels
        }) + moved_levels(content.levels, start),
        sources: match content.file {
            Some(f) => out.sources.push((start, end, f, 1)) + moved_sources(content.sources, start),
            None => out.sources,
        },
        expansions: if root {
            out.expansions.push((line, content.lines.len() as int))
        } else {
            out.expansions
        },
        drops: out.drops,
    }
}

/// The number of line feeds in a text.
pub open spec fn feeds(s: Seq<char>) -> nat
    decreases s.len(),
{
    if s.len() == 0 {
        0
    } else {
        feeds(s.drop_last()) + (if s.last() == '\n' {
            1nat
        } else {
            0nat
        })
    }
}

/// The lines that a condition took in excess of those that it put out: of the
/// `taken` lines from `line` on, so many of the first.
pub open spec fn dropped(line: int, taken: int, kept: Option<Seq<char>>) -> Seq<int> {
    let given = match kept {
        Some(content) => feeds(content) as int + 1,
        None => 0,
    };
    Seq::new(
        (if taken > given {
            taken - given
        } else {
            0
        }) as nat,
        |k: int| line + k,
    )
}

// ---------------------------------------------------------------------------
// Going through.
// ---------------------------------------------------------------------------

/// How far it has come: the next line, its number and offset, the attributes, the
/// answers used, what was put out, and the warnings.
#[verifier::ext_equal]
pub struct RunV {
    pub i: int,
    pub number: int,
    pub offset: int,
    pub attributes: Map<Seq<char>, (ValueV, bool)>,
    pub used: int,
    pub out: OutV,
    pub warnings: Seq<WarningV>,
}

/// How it ends.
#[verifier::ext_equal]
pub enum EndV {
    Done(OutV),
    Failed(ErrorV),
    Needs(RequestV),
}

/// What comes of one line: the next line, or the end, with the warnings.
pub enum StepV {
    Next(RunV),
    Stop(EndV, Seq<WarningV>),
}

/// The run with a line put out, before the line behind it.
pub open spec fn line_out(r: RunV, line: Seq<char>, text: Seq<char>) -> RunV {
    RunV {
        i: r.i + 1,
        number: r.number + 1,
        offset: saturated(r.offset + blen(line) + 1),
        out: pushed(r.out, text),
        ..r
    }
}

/// The warning that an end does not match its condition.
pub open spec fn mismatch_warning(place: PlaceV) -> WarningV {
    WarningV {
        message: "attribute mismatch between if and endif directives"@,
        location: Some(place),
    }
}

/// The offset of the line `j`, behind that of the line that the run has come to.
pub open spec fn offset_of(lines: Seq<Seq<char>>, r: RunV, j: int) -> int {
    saturated(r.offset + lines_blen(lines.subrange(r.i, j)))
}

/// What comes of a condition that is known to hold or not, with the lines up to `j`
/// and the content that it governs.
pub open spec fn decided(
    lines: Seq<Seq<char>>,
    r: RunV,
    j: int,
    kept: Option<Seq<char>>,
    used: int,
    ctx: ContextV,
) -> RunV {
    let taken = j - r.i;
    let out = match kept {
        Some(content) => pushed(r.out, content),
        None => r.out,
    };
    RunV {
        i: j,
        number: r.number + taken,
        offset: offset_of(lines, r, j),
        used,
        out: if ctx.depth == 0 {
            OutV { drops: out.drops + dropped(r.number, taken, kept), ..out }
        } else {
            out
        },
        ..r
    }
}

/// What is kept of what a condition governs.
pub open spec fn kept_of(condition: ConditionV, content: Seq<char>, truth: bool) -> Option<
    Seq<char>,
> {
    if !truth {
        None
    } else if own_content(condition) is Some {
        own_content(condition)
    } else {
        Some(content)
    }
}

/// Whether the answer at `used` tells the truth of an expression.
pub open spec fn truth_at(answers: Seq<AnswerV>, used: int) -> Option<bool> {
    if 0 <= used < answers.len() {
        match answers[used] {
            AnswerV::Truth(b) => Some(b),
            AnswerV::Content(_) => None,
        }
    } else {
        None
    }
}

/// Whether the answer at `used` is the content of a file.
pub open spec fn content_at(answers: Seq<AnswerV>, used: int) -> Option<ContentV> {
    if 0 <= used < answers.len() {
        match answers[used] {
            AnswerV::Content(c) => Some(c),
            AnswerV::Truth(_) => None,
        }
    } else {
        None
    }
}

/// What a condition on the line `i` governs: the lines behind it, the line behind
/// these, and whether that line is an end. A condition that holds its text itself
/// governs no lines.
pub open spec fn governed(lines: Seq<Seq<char>>, i: int, condition: ConditionV) -> (
    Seq<char>,
    int,
    bool,
) {
    if own_content(condition) is Some {
        (Seq::empty(), i + 1, false)
    } else {
        body(lines, i + 1, Seq::empty())
    }
}

/// What comes of a conditional directive.
pub open spec fn conditional_step(
    lines: Seq<Seq<char>>,
    r: RunV,
    answers: Seq<AnswerV>,
    ctx: ContextV,
) -> StepV {
    match condition_of(lines[r.i]) {
        None => StepV::Stop(
            EndV::Failed(ErrorV::InvalidConditionalDirective(place_of(ctx.file, r.number))),
            r.warnings,
        ),
        Some(condition) => {
            let (content, j, at_end) = governed(lines, r.i, condition);
            let end_place = place_of(ctx.file, r.number + (j - r.i));
            if at_end && endif_of(lines[j]) is None {
                StepV::Stop(
                    EndV::Failed(ErrorV::InvalidConditionalDirective(end_place)),
                    r.warnings,
                )
            } else if at_end && !closes(endif_of(lines[j])->Some_0, condition) {
                StepV::Stop(
                    EndV::Failed(ErrorV::InvalidConditionalDirective(end_place)),
                    r.warnings.push(mismatch_warning(end_place)),
                )
            } else {
                let k = if at_end {
                    j + 1
                } else {
                    j
                };
                match (holds(condition, r.attributes), truth_at(answers, r.used)) {
                    (Some(truth), _) => StepV::Next(
                        decided(lines, r, k, kept_of(condition, content, truth), r.used, ctx),
                    ),
                    (None, Some(truth)) => StepV::Next(
                        decided(lines, r, k, kept_of(condition, content, truth), r.used + 1, ctx),
                    ),
                    (None, None) => StepV::Stop(
                        EndV::Needs(
                            RequestV::Truth {
                                expression: condition->Ifeval_0,
                                line_number: r.number,
                                offset: r.offset,
                                file: ctx.file,
                                attributes: r.attributes,
                            },
                        ),
                        r.warnings,
                    ),
                }
            }
        },
    }
}

/// Whether the character `k` of a path is a component that stands for the directory
/// it is in: a dot between slashes, or at the end behind one.
pub open spec fn is_lone_dot(path: Seq<char>, k: int) -> bool {
    &&& path[k] == '.'
    &&& k > 0 && path[k - 1] == '/'
    &&& k + 1 == path.len() || path[k + 1] == '/'
}

/// Whether a path leads into a directory: it has a component that is more than a
/// root. Behind the first, a dot alone is no component.
pub open spec fn has_parent(path: Seq<char>) -> bool {
    exists|k: int| 0 <= k < path.len() && #[trigger] path[k] != '/' && !is_lone_dot(path, k)
}

/// The warning of a directive that asks for content too deep down.
pub open spec fn depth_warning(place: PlaceV) -> WarningV {
    WarningV {
        message: "include depth exceeded 64 — possible cyclic include; skipping"@,
        location: Some(place),
    }
}

/// The warning of a directive that asks for content where there is no file.
pub open spec fn context_warning(place: PlaceV) -> WarningV {
    WarningV {
        message: "include directive cannot be processed: no file context (set `virtual_current_file` or use `parse_file`)"@,
        location: Some(place),
    }
}

/// The run behind a directive that asks for content, with what is put out in its
/// place.
pub open spec fn past_directive(r: RunV, line: Seq<char>, out: OutV, used: int) -> RunV {
    RunV {
        i: r.i + 1,
        number: r.number + 1,
        offset: saturated(r.offset + blen(line) + 1),
        used,
        out,
        ..r
    }
}

/// What was put out by a directive that gets no content: its line counts as one
/// that has none in its place.
pub open spec fn without_content(r: RunV, ctx: ContextV) -> OutV {
    if ctx.depth == 0 {
        OutV { expansions: r.out.expansions.push((r.number, 0)), ..r.out }
    } else {
        r.out
    }
}

/// What comes of a directive that asks for the content of a file.
pub open spec fn content_step(
    lines: Seq<Seq<char>>,
    r: RunV,
    answers: Seq<AnswerV>,
    ctx: ContextV,
) -> StepV {
    let line = lines[r.i];
    let place = place_of(ctx.file, r.number);
    let none = past_directive(r, line, without_content(r, ctx), r.used);
    if ctx.depth >= MAX_INCLUDE_DEPTH {
        StepV::Next(RunV { warnings: r.warnings.push(depth_warning(place)), ..none })
    } else {
        match ctx.file {
            None => StepV::Next(
                RunV { warnings: r.warnings.push(context_warning(place)), ..none },
            ),
            Some(file) => if !has_parent(file) {
                StepV::Next(none)
            } else {
                match content_at(answers, r.used) {
                    Some(content) => StepV::Next(
                        RunV {
                            warnings: r.warnings + content.warnings,
                            ..past_directive(
                                r,
                                line,
                                with_content(r.out, content, r.number, ctx.depth == 0),
                                r.used + 1,
                            )
                        },
                    ),
                    None => StepV::Stop(
                        EndV::Needs(
                            RequestV::Content {
                                line,
                                line_number: r.number,
                                offset: r.offset,
                                file,
                                depth: ctx.depth,
                                attributes: r.attributes,
                            },
                        ),
                        r.warnings,
                    ),
                }
            },
        }
    }
}

/// What comes of a line that is no wrapped attribute.
pub open spec fn plain_step(
    lines: Seq<Seq<char>>,
    r: RunV,
    answers: Seq<AnswerV>,
    ctx: ContextV,
) -> StepV {
    let line = lines[r.i];
    if delimiter_of(line) is Some || starts_with_spec(line, "//"@) || !is_directive(line) {
        StepV::Next(line_out(r, line, line))
    } else if is_escaped(line) {
        StepV::Next(line_out(r, line, line.drop_first()))
    } else if is_conditional(line) {
        conditional_step(lines, r, answers, ctx)
    } else if starts_with_spec(line, "include"@) {
        content_step(lines, r, answers, ctx)
    } else {
        StepV::Next(line_out(r, line, line))
    }
}

/// What comes of one line. The lines of a wrapped attribute are put out as one.
pub open spec fn step(
    lines: Seq<Seq<char>>,
    r: RunV,
    answers: Seq<AnswerV>,
    ctx: ContextV,
) -> StepV {
    let line = lines[r.i];
    if is_attribute(line) && wraps(line) {
        let (content, j) = wrapped(lines, r.i + 1, wrapped_piece(line));
        StepV::Next(
            RunV {
                i: j,
                number: r.number + (j - r.i),
                offset: offset_of(lines, r, j),
                attributes: after_attribute_line(r.attributes, content),
                out: pushed(r.out, content),
                ..r
            },
        )
    } else if is_attribute(line) {
        plain_step(
            lines,
            RunV { attributes: after_attribute_line(r.attributes, trim_spec(line)), ..r },
            answers,
            ctx,
        )
    } else {
        plain_step(lines, r, answers, ctx)
    }
}

/// What comes of the lines from where the run has come to.
pub open spec fn run(lines: Seq<Seq<char>>, r: RunV, answers: Seq<AnswerV>, ctx: ContextV) -> (
    EndV,
    Seq<WarningV>,
)
    decreases lines.len() - r.i,
    via run_ends
{
    if r.i < 0 || r.i >= lines.len() {
        (EndV::Done(r.out), r.warnings)
    } else {
        match step(lines, r, answers, ctx) {
            StepV::Next(next) => run(lines, next, answers, ctx),
            StepV::Stop(end, warnings) => (end, warnings),
        }
    }
}

#[via_fn]
proof fn run_ends(lines: Seq<Seq<char>>, r: RunV, answers: Seq<AnswerV>, ctx: ContextV) {
    if 0 <= r.i < lines.len() {
        lemma_step_advances(lines, r, answers, ctx);
    }
}

/// Nothing put out.
pub open spec fn nothing_out() -> OutV {
    OutV {
        lines: Seq::empty(),
        bytes: 0,
        levels: Seq::empty(),
        sources: Seq::empty(),
        expansions: Seq::empty(),
        drops: Seq::empty(),
    }
}

/// Where it starts.
pub open spec fn run_start(
    attributes: Map<Seq<char>, (ValueV, bool)>,
    warnings: Seq<WarningV>,
) -> RunV {
    RunV { i: 0, number: 1, offset: 0, attributes, used: 0, out: nothing_out(), warnings }
}

/// The text to parse that was put out.
pub open spec fn done_of(out: OutV) -> DoneV {
    DoneV {
        text: joined(out.lines),
        levels: out.levels,
        sources: out.sources,
        expansions: out.expansions,
        drops: out.drops,
    }
}

/// A text that is put out as it is.
pub open spec fn as_it_is(text: Seq<char>) -> DoneV {
    DoneV {
        text,
        levels: Seq::empty(),
        sources: Seq::empty(),
        expansions: Seq::empty(),
        drops: Seq::empty(),
    }
}

/// What comes of a source, behind some warnings: how far it was gone through, or the
/// error, and the warnings with those of the source.
pub open spec fn processed(
    input: Seq<char>,
    attributes: Map<Seq<char>, (ValueV, bool)>,
    answers: Seq<AnswerV>,
    ctx: ContextV,
    warnings: Seq<WarningV>,
) -> (Result<ProgressV, ErrorV>, Seq<WarningV>) {
    let text = normalized(input);
    if passes_through(text) {
        (Ok(ProgressV::Done(as_it_is(text))), warnings)
    } else {
        let (end, all) = run(lines_spec(text), run_start(attributes, warnings), answers, ctx);
        (
            match end {
                EndV::Done(out) => Ok(ProgressV::Done(done_of(out))),
                EndV::Failed(e) => Err(e),
                EndV::Needs(q) => Ok(ProgressV::Needs(q)),
            },
            all,
        )
    }
}

/// What comes of a file, of which this text was read, or for which there is this
/// error.
pub open spec fn processed_file(
    path: Seq<char>,
    text: Result<Seq<char>, ErrorV>,
    attributes: Map<Seq<char>, (ValueV, bool)>,
    answers: Seq<AnswerV>,
    warnings: Seq<WarningV>,
) -> (Result<ProgressV, ErrorV>, Seq<WarningV>) {
    if !has_parent(path) {
        (Err(ErrorV::InvalidIncludePath(place_of(Some(path), 1), path)), warnings)
    } else {
        match text {
            Err(e) => (Err(e), warnings),
            Ok(input) => processed(
                input,
                attributes,
                answers,
                ContextV { file: Some(path), depth: 0 },
                warnings,
            ),
        }
    }
}

// ---------------------------------------------------------------------------
// Facts about the model.
// ---------------------------------------------------------------------------

proof fn lemma_wrapped(lines: Seq<Seq<char>>, j: int, content: Seq<char>)
    requires
        0 <= j <= lines.len(),
    ensures
        j <= wrapped(lines, j, content).1 <= lines.len(),
    decreases lines.len() - j,
{
    if j < lines.len() {
        let t = trim_spec(lines[j]);
        if !(t.len() == 0 || t[0] == ':') && wraps(t) {
            lemma_wrapped(lines, j + 1, content + wrapped_piece(t));
        }
    }
}

pub proof fn lemma_body(lines: Seq<Seq<char>>, j: int, content: Seq<char>)
    requires
        0 <= j <= lines.len(),
    ensures
        j <= body(lines, j, content).1 <= lines.len(),
        body(lines, j, content).2 ==> body(lines, j, content).1 < lines.len(),
    decreases lines.len() - j,
{
    if !(j >= lines.len() || lines[j].len() == 0) && !starts_with_spec(lines[j], "endif"@) {
        lemma_body(lines, j + 1, content + lines[j] + seq!['\n']);
    }
}

/// Each step takes at least one line, and none that is not there.
pub proof fn lemma_step_advances(
    lines: Seq<Seq<char>>,
    r: RunV,
    answers: Seq<AnswerV>,
    ctx: ContextV,
)
    requires
        0 <= r.i < lines.len(),
    ensures
        step(lines, r, answers, ctx) matches StepV::Next(next) ==> r.i < next.i <= lines.len(),
{
    lemma_wrapped(lines, r.i + 1, wrapped_piece(lines[r.i]));
    lemma_body(lines, r.i + 1, Seq::empty());
}

// ---------------------------------------------------------------------------
// Laws.
// ---------------------------------------------------------------------------

/// What holds of a run at any time: lines are counted from 1; the bytes put out are
/// those of the lines; each directive and each lost line is known once, in the order of
/// the source; and only those of the source itself are known.
pub open spec fn is_sound(r: RunV, ctx: ContextV) -> bool {
    &&& r.number == r.i + 1
    &&& r.out.bytes == saturated(lines_blen(r.out.lines) as int)
    &&& forall|a: int| 0 <= a < r.out.expansions.len() ==> #[trigger] r.out.expansions[a].0
        < r.number
    &&& forall|a: int, b: int|
        0 <= a < b < r.out.expansions.len() ==> #[trigger] r.out.expansions[a].0
            < #[trigger] r.out.expansions[b].0
    &&& forall|a: int| 0 <= a < r.out.drops.len() ==> #[trigger] r.out.drops[a] < r.number
    &&& forall|a: int, b: int|
        0 <= a < b < r.out.drops.len() ==> #[trigger] r.out.drops[a] < #[trigger] r.out.drops[b]
    &&& ctx.depth != 0 ==> r.out.expansions.len() == 0 && r.out.drops.len() == 0
}

proof fn lemma_lines_blen_push(lines: Seq<Seq<char>>, line: Seq<char>)
    ensures
        lines_blen(lines.push(line)) == lines_blen(lines) + blen(line) + 1,
{
    let all = lines.push(line);
    lemma_lines_blen_step(all, lines.len() as int);
    assert(all.take(lines.len() as int) =~= lines);
    assert(all.take(lines.len() as int + 1) =~= all);
}

proof fn lemma_lines_blen_concat(a: Seq<Seq<char>>, b: Seq<Seq<char>>)
    ensures
        lines_blen(a + b) == lines_blen(a) + lines_blen(b),
{
    lemma_lines_blen_split(a + b, a.len() as int);
    assert((a + b).take(a.len() as int) =~= a);
    assert((a + b).skip(a.len() as int) =~= b);
}

proof fn lemma_conditional_sound(
    lines: Seq<Seq<char>>,
    r: RunV,
    answers: Seq<AnswerV>,
    ctx: ContextV,
)
    requires
        0 <= r.i < lines.len(),
        is_sound(r, ctx),
    ensures
        conditional_step(lines, r, answers, ctx) matches StepV::Next(next) ==> is_sound(next, ctx),
{
    lemma_body(lines, r.i + 1, Seq::empty());
    match conditional_step(lines, r, answers, ctx) {
        StepV::Next(next) => {
            if next.out.lines.len() == r.out.lines.len() + 1 {
                lemma_lines_blen_push(r.out.lines, next.out.lines.last());
            }
        },
        StepV::Stop(_, _) => {},
    }
}

proof fn lemma_content_sound(lines: Seq<Seq<char>>, r: RunV, answers: Seq<AnswerV>, ctx: ContextV)
    requires
        0 <= r.i < lines.len(),
        is_sound(r, ctx),
    ensures
        content_step(lines, r, answers, ctx) matches StepV::Next(next) ==> is_sound(next, ctx),
{
    match content_at(answers, r.used) {
        Some(content) => lemma_lines_blen_concat(r.out.lines, content.lines),
        None => {},
    }
}

proof fn lemma_step_sound(lines: Seq<Seq<char>>, r: RunV, answers: Seq<AnswerV>, ctx: ContextV)
    requires
        0 <= r.i < lines.len(),
        is_sound(r, ctx),
    ensures
        step(lines, r, answers, ctx) matches StepV::Next(next) ==> is_sound(next, ctx),
{
    let line = lines[r.i];
    if is_attribute(line) && wraps(line) {
        lemma_wrapped(lines, r.i + 1, wrapped_piece(line));
        lemma_lines_blen_push(r.out.lines, wrapped(lines, r.i + 1, wrapped_piece(line)).0);
    } else {
        let now = if is_attribute(line) {
            RunV { attributes: after_attribute_line(r.attributes, trim_spec(line)), ..r }
        } else {
            r
        };
        assert(is_sound(now, ctx));
        lemma_lines_blen_push(r.out.lines, line);
        lemma_lines_blen_push(r.out.lines, line.drop_first());
        lemma_conditional_sound(lines, now, answers, ctx);
        lemma_content_sound(lines, now, answers, ctx);
    }
}

/// At the end the bytes put out are those of the lines, the directives and the lost
/// lines are known once and in the order of the source, and none of them where the
/// source is nested in another.
pub proof fn law_run_is_sound(
    lines: Seq<Seq<char>>,
    r: RunV,
    answers: Seq<AnswerV>,
    ctx: ContextV,
)
    requires
        0 <= r.i,
        is_sound(r, ctx),
    ensures
        run(lines, r, answers, ctx).0 matches EndV::Done(out) ==> {
            &&& out.bytes == saturated(lines_blen(out.lines) as int)
            &&& forall|a: int, b: int|
                0 <= a < b < out.expansions.len() ==> #[trigger] out.expansions[a].0
                    < #[trigger] out.expansions[b].0
            &&& forall|a: int, b: int|
                0 <= a < b < out.drops.len() ==> #[trigger] out.drops[a] < #[trigger] out.drops[b]
            &&& ctx.depth != 0 ==> out.expansions.len() == 0 && out.drops.len() == 0
        },
    decreases lines.len() - r.i,
{
    if r.i < lines.len() {
        lemma_step_advances(lines, r, answers, ctx);
        lemma_step_sound(lines, r, answers, ctx);
        match step(lines, r, answers, ctx) {
            StepV::Next(next) => law_run_is_sound(lines, next, answers, ctx),
            StepV::Stop(_, _) => {},
        }
    }
}

/// A run starts sound.
pub proof fn law_start_is_sound(
    attributes: Map<Seq<char>, (ValueV, bool)>,
    warnings: Seq<WarningV>,
    ctx: ContextV,
)
    ensures
        is_sound(run_start(attributes, warnings), ctx),
{
}

/// Whether ranges of levels lie within so many bytes.
pub open spec fn levels_within(levels: Seq<(int, int, int)>, bytes: int) -> bool {
    forall|k: int|
        0 <= k < levels.len() ==> 0 <= (#[trigger] levels[k]).0 <= levels[k].1 <= bytes
}

/// Whether ranges of sources lie within so many bytes.
pub open spec fn sources_within(sources: Seq<(int, int, Seq<char>, int)>, bytes: int) -> bool {
    forall|k: int|
        0 <= k < sources.len() ==> 0 <= (#[trigger] sources[k]).0 <= sources[k].1 <= bytes
}

/// Whether the ranges of each content lie within that content.
pub open spec fn answers_within(answers: Seq<AnswerV>) -> bool {
    forall|k: int|
        #![trigger answers[k]]
        0 <= k < answers.len() ==> (answers[k] matches AnswerV::Content(c) ==> levels_within(
            c.levels,
            lines_blen(c.lines) as int,
        ) && sources_within(c.sources, lines_blen(c.lines) as int))
}

/// Whether the ranges of what was put out lie within it.
spec fn ranges_within(out: OutV) -> bool {
    &&& 0 <= out.bytes <= usize::MAX
    &&& levels_within(out.levels, out.bytes)
    &&& sources_within(out.sources, out.bytes)
}

proof fn lemma_pushed_within(out: OutV, line: Seq<char>)
    requires
        ranges_within(out),
    ensures
        ranges_within(pushed(out, line)),
{
}

proof fn lemma_conditional_within(
    lines: Seq<Seq<char>>,
    r: RunV,
    answers: Seq<AnswerV>,
    ctx: ContextV,
)
    requires
        ranges_within(r.out),
    ensures
        conditional_step(lines, r, answers, ctx) matches StepV::Next(next) ==> ranges_within(
            next.out,
        ),
{
}

proof fn lemma_content_within(
    lines: Seq<Seq<char>>,
    r: RunV,
    answers: Seq<AnswerV>,
    ctx: ContextV,
)
    requires
        ranges_within(r.out),
        answers_within(answers),
    ensures
        content_step(lines, r, answers, ctx) matches StepV::Next(next) ==> ranges_within(next.out),
{
}

proof fn lemma_step_within(lines: Seq<Seq<char>>, r: RunV, answers: Seq<AnswerV>, ctx: ContextV)
    requires
        ranges_within(r.out),
        answers_within(answers),
    ensures
        step(lines, r, answers, ctx) matches StepV::Next(next) ==> ranges_within(next.out),
{
    let line = lines[r.i];
    let now = if is_attribute(line) {
        RunV { attributes: after_attribute_line(r.attributes, trim_spec(line)), ..r }
    } else {
        r
    };
    lemma_pushed_within(r.out, wrapped(lines, r.i + 1, wrapped_piece(line)).0);
    lemma_pushed_within(r.out, line);
    lemma_pushed_within(r.out, line.drop_first());
    lemma_conditional_within(lines, now, answers, ctx);
    lemma_content_within(lines, now, answers, ctx);
}

/// Where the ranges of each content lie within that content, all ranges lie within
/// what was put out.
pub proof fn law_ranges_lie_in_the_text(
    lines: Seq<Seq<char>>,
    r: RunV,
    answers: Seq<AnswerV>,
    ctx: ContextV,
)
    requires
        0 <= r.i,
        0 <= r.out.bytes <= usize::MAX,
        answers_within(answers),
        levels_within(r.out.levels, r.out.bytes),
        sources_within(r.out.sources, r.out.bytes),
    ensures
        run(lines, r, answers, ctx).0 matches EndV::Done(out) ==> levels_within(
            out.levels,
            out.bytes,
        ) && sources_within(out.sources, out.bytes),
    decreases lines.len() - r.i,
{
    if r.i < lines.len() {
        lemma_step_advances(lines, r, answers, ctx);
        lemma_step_within(lines, r, answers, ctx);
        match step(lines, r, answers, ctx) {
            StepV::Next(next) => law_ranges_lie_in_the_text(lines, next, answers, ctx),
            StepV::Stop(_, _) => {},
        }
    }
}

proof fn lemma_run_plain(lines: Seq<Seq<char>>, r: RunV, answers: Seq<AnswerV>, ctx: ContextV)
    requires
        0 <= r.i <= lines.len(),
        forall|k: int| r.i <= k < lines.len() ==> !is_trigger(#[trigger] lines[k]),
    ensures
        ({
            let (end, warnings) = run(lines, r, answers, ctx);
            &&& warnings == r.warnings
            &&& end matches EndV::Done(out) && out.lines == r.out.lines + lines.skip(r.i)
                && out.levels == r.out.levels && out.sources == r.out.sources && out.expansions
                == r.out.expansions && out.drops == r.out.drops
        }),
    decreases lines.len() - r.i,
{
    if r.i < lines.len() {
        let line = lines[r.i];
        assert(!is_trigger(line));
        match step(lines, r, answers, ctx) {
            StepV::Next(next) => {
                lemma_run_plain(lines, next, answers, ctx);
                assert(r.out.lines + lines.skip(r.i) =~= r.out.lines.push(line) + lines.skip(
                    r.i + 1,
                ));
            },
            StepV::Stop(_, _) => {},
        }
    } else {
        assert(r.out.lines + lines.skip(r.i) =~= r.out.lines);
    }
}

/// A text that is put out as it is would come out the same line by line, with no
/// warning, unless it ends in a line feed: that one would be lost.
pub proof fn law_passing_through_changes_nothing(
    input: Seq<char>,
    attributes: Map<Seq<char>, (ValueV, bool)>,
    answers: Seq<AnswerV>,
    ctx: ContextV,
    warnings: Seq<WarningV>,
)
    requires
        passes_through(normalized(input)),
        normalized(input).len() > 0 ==> normalized(input).last() != '\n',
    ensures
        ({
            let (end, all) = run(
                lines_spec(normalized(input)),
                run_start(attributes, warnings),
                answers,
                ctx,
            );
            &&& all == warnings
            &&& end matches EndV::Done(out) && done_of(out) == as_it_is(normalized(input))
        }),
{
    let text = normalized(input);
    let lines = lines_spec(text);
    let r = run_start(attributes, warnings);
    lemma_run_plain(lines, r, answers, ctx);
    law_normalized_is_its_lines(input);
    assert(r.out.lines + lines.skip(0) =~= lines);
}

/// Answers beyond those that a run uses change nothing: what has come to an end
/// without a question comes to the same end.
pub proof fn law_more_answers_change_nothing(
    lines: Seq<Seq<char>>,
    r: RunV,
    answers: Seq<AnswerV>,
    more: Seq<AnswerV>,
    ctx: ContextV,
)
    requires
        0 <= r.i,
        !(run(lines, r, answers, ctx).0 is Needs),
    ensures
        run(lines, r, answers + more, ctx) == run(lines, r, answers, ctx),
    decreases lines.len() - r.i,
{
    if r.i < lines.len() {
        lemma_step_advances(lines, r, answers, ctx);
        if 0 <= r.used < answers.len() {
            assert((answers + more)[r.used] == answers[r.used]);
        }
        match step(lines, r, answers, ctx) {
            StepV::Next(next) => {
                assert(step(lines, r, answers + more, ctx) == StepV::Next(next));
                law_more_answers_change_nothing(lines, next, answers, more, ctx);
            },
            StepV::Stop(_, _) => {},
        }
    }
}

/// Content is asked for only where the source stands in a file, and above the
/// deepest level. So files that draw on each other in a circle come to an end.
pub proof fn law_content_is_bounded(
    lines: Seq<Seq<char>>,
    r: RunV,
    answers: Seq<AnswerV>,
    ctx: ContextV,
)
    requires
        0 <= r.i,
    ensures
        run(lines, r, answers, ctx).0 matches EndV::Needs(
            RequestV::Content { file, depth, .. },
        ) ==> ctx.file == Some(file) && depth == ctx.depth && depth < MAX_INCLUDE_DEPTH,
    decreases lines.len() - r.i,
{
    if r.i < lines.len() {
        lemma_step_advances(lines, r, answers, ctx);
        match step(lines, r, answers, ctx) {
            StepV::Next(next) => law_content_is_bounded(lines, next, answers, ctx),
            StepV::Stop(_, _) => {},
        }
    }
}

/// The attributes that lines leave behind, each attribute line taken in turn.
pub open spec fn attributes_after(
    attributes: Map<Seq<char>, (ValueV, bool)>,
    lines: Seq<Seq<char>>,
) -> Map<Seq<char>, (ValueV, bool)>
    decreases lines.len(),
{
    if lines.len() == 0 {
        attributes
    } else {
        let before = attributes_after(attributes, lines.drop_last());
        if is_attribute(lines.last()) {
            after_attribute_line(before, trim_spec(lines.last()))
        } else {
            before
        }
    }
}

/// The line that a question stands on.
pub open spec fn question_line(q: RequestV) -> int {
    match q {
        RequestV::Content { line_number, .. } => line_number,
        RequestV::Truth { line_number, .. } => line_number,
    }
}

/// The attributes that a question is asked with.
pub open spec fn question_attributes(q: RequestV) -> Map<Seq<char>, (ValueV, bool)> {
    match q {
        RequestV::Content { attributes, .. } => attributes,
        RequestV::Truth { attributes, .. } => attributes,
    }
}

/// Whether none of the first `n` lines is a directive or goes on behind its line.
pub open spec fn is_plain_up_to(lines: Seq<Seq<char>>, n: int) -> bool {
    forall|k: int| 0 <= k < n ==> !is_trigger(#[trigger] lines[k])
}

proof fn lemma_question(
    lines: Seq<Seq<char>>,
    r: RunV,
    answers: Seq<AnswerV>,
    ctx: ContextV,
    attributes: Map<Seq<char>, (ValueV, bool)>,
)
    requires
        0 <= r.i <= lines.len(),
        r.number == r.i + 1,
        is_plain_up_to(lines, r.i) ==> r.attributes == attributes_after(
            attributes,
            lines.take(r.i),
        ),
    ensures
        run(lines, r, answers, ctx).0 matches EndV::Needs(q) ==> {
            &&& r.number <= question_line(q)
            &&& is_plain_up_to(lines, question_line(q) - 1) ==> question_attributes(q)
                == attributes_after(attributes, lines.take(question_line(q) - 1))
        },
    decreases lines.len() - r.i,
{
    if r.i < lines.len() {
        let line = lines[r.i];
        lemma_step_advances(lines, r, answers, ctx);
        assert(lines.take(r.i + 1).drop_last() =~= lines.take(r.i));
        assert(lines.take(r.i + 1).last() == line);
        match step(lines, r, answers, ctx) {
            StepV::Next(next) => {
                assert(next.number == next.i + 1);
                if is_plain_up_to(lines, next.i) {
                    assert(!is_trigger(lines[r.i]));
                    assert(next.i == r.i + 1);
                    assert(is_plain_up_to(lines, r.i));
                }
                lemma_question(lines, next, answers, ctx, attributes);
            },
            StepV::Stop(_, _) => {
                lemma_question_of_step(lines, r, answers, ctx);
            },
        }
    }
}

proof fn lemma_question_of_step(
    lines: Seq<Seq<char>>,
    r: RunV,
    answers: Seq<AnswerV>,
    ctx: ContextV,
)
    requires
        0 <= r.i < lines.len(),
    ensures
        step(lines, r, answers, ctx) matches StepV::Stop(EndV::Needs(q), _) ==> {
            &&& question_line(q) == r.number
            &&& question_attributes(q) == r.attributes
        },
{
    let line = lines[r.i];
    reveal_strlit("ifdef");
    reveal_strlit("ifndef");
    reveal_strlit("ifeval");
    reveal_strlit("include");
    if is_attribute(line) {
        assert(!is_conditional(line) && !starts_with_spec(line, "include"@)) by {
            assert("ifdef"@[0] == 'i' && "ifndef"@[0] == 'i' && "ifeval"@[0] == 'i' && "include"@[0]
                == 'i');
            assert(line.subrange(0, 5)[0] == ':' || line.len() < 5);
            assert(line.subrange(0, 6)[0] == ':' || line.len() < 6);
            assert(line.subrange(0, 7)[0] == ':' || line.len() < 7);
        }
    }
}

/// What a directive asks for is asked with the attributes in force where it stands:
/// where no other directive comes before it, those that the source started with, as
/// the attribute lines before it changed them.
pub proof fn law_questions_know_the_attributes(
    lines: Seq<Seq<char>>,
    attributes: Map<Seq<char>, (ValueV, bool)>,
    warnings: Seq<WarningV>,
    answers: Seq<AnswerV>,
    ctx: ContextV,
)
    ensures
        run(lines, run_start(attributes, warnings), answers, ctx).0 matches EndV::Needs(q) ==> (
        is_plain_up_to(lines, question_line(q) - 1) ==> question_attributes(q)
            == attributes_after(attributes, lines.take(question_line(q) - 1))),
{
    assert(lines.take(0) =~= Seq::empty());
    lemma_question(lines, run_start(attributes, warnings), answers, ctx, attributes);
}

pub proof fn lemma_feeds_concat(a: Seq<char>, b: Seq<char>)
    ensures
        feeds(a + b) == feeds(a) + feeds(b),
    decreases b.len(),
{
    if b.len() == 0 {
        assert(a + b =~= a);
    } else {
        lemma_feeds_concat(a, b.drop_last());
        assert((a + b).drop_last() =~= a + b.drop_last());
    }
}

pub proof fn lemma_no_feeds(s: Seq<char>)
    requires
        !s.contains('\n'),
    ensures
        feeds(s) == 0,
    decreases s.len(),
{
    if s.len() > 0 {
        assert(s.contains(s.last()));
        assert forall|k: int| 0 <= k < s.drop_last().len() implies s.drop_last()[k] != '\n' by {
            assert(s.contains(s[k]));
        }
        lemma_no_feeds(s.drop_last());
    }
}

pub proof fn lemma_body_feeds(lines: Seq<Seq<char>>, j: int, content: Seq<char>)
    requires
        0 <= j <= lines.len(),
        forall|k: int| 0 <= k < lines.len() ==> !(#[trigger] lines[k]).contains('\n'),
    ensures
        feeds(body(lines, j, content).0) == feeds(content) + (body(lines, j, content).1 - j),
    decreases lines.len() - j,
{
    if !(j >= lines.len() || lines[j].len() == 0) && !starts_with_spec(lines[j], "endif"@) {
        lemma_body_feeds(lines, j + 1, content + lines[j] + seq!['\n']);
        lemma_feeds_concat(content + lines[j], seq!['\n']);
        lemma_feeds_concat(content, lines[j]);
        lemma_no_feeds(lines[j]);
        let one = seq!['\n'];
        assert(one.drop_last() =~= Seq::<char>::empty());
        assert(feeds(one.drop_last()) == 0);
        assert(feeds(one) == 1);
    }
}

/// The lines that a condition takes without a line in the text: a condition that
/// holds loses its own line where it governs lines up to an end, and none where no
/// end follows or where it holds its text itself, which is all that it takes then; one
/// that does not hold loses all its lines.
pub proof fn law_lost_lines(
    lines: Seq<Seq<char>>,
    i: int,
    condition: ConditionV,
    line: int,
    truth: bool,
)
    requires
        0 <= i < lines.len(),
        forall|k: int| 0 <= k < lines.len() ==> !(#[trigger] lines[k]).contains('\n'),
        own_content(condition) matches Some(text) ==> !text.contains('\n'),
    ensures
        ({
            let (content, j, at_end) = governed(lines, i, condition);
            let taken = if at_end {
                j + 1 - i
            } else {
                j - i
            };
            dropped(line, taken, kept_of(condition, content, truth)) == if !truth {
                Seq::new(taken as nat, |k: int| line + k)
            } else if at_end {
                seq![line]
            } else {
                Seq::empty()
            }
        }),
        own_content(condition) is Some ==> governed(lines, i, condition).1 == i + 1,
{
    let (content, j, at_end) = governed(lines, i, condition);
    let kept = kept_of(condition, content, truth);
    lemma_body(lines, i + 1, Seq::empty());
    lemma_body_feeds(lines, i + 1, Seq::empty());
    assert(feeds(Seq::<char>::empty()) == 0);
    match own_content(condition) {
        Some(text) => lemma_no_feeds(text),
        None => {},
    }
    if !truth {
        let taken = if at_end {
            j + 1 - i
        } else {
            j - i
        };
        assert(dropped(line, taken, kept) =~= Seq::new(taken as nat, |k: int| line + k));
    } else if at_end {
        assert(dropped(line, j + 1 - i, kept) =~= seq![line]);
    } else {
        assert(dropped(line, j - i, kept) =~= Seq::<int>::empty());
    }
}

proof fn lemma_first_char(s: Seq<char>, front: Seq<char>)
    requires
        front.len() > 0,
    ensures
        starts_with_spec(s, front) ==> s.len() > 0 && s[0] == front[0],
{
    if starts_with_spec(s, front) {
        assert(s.subrange(0, front.len() as int)[0] == s[0]);
    }
}

/// A directive that is escaped by a backslash is put out without it.
pub proof fn law_escapes_are_taken_away(
    lines: Seq<Seq<char>>,
    r: RunV,
    answers: Seq<AnswerV>,
    ctx: ContextV,
)
    requires
        0 <= r.i < lines.len(),
        is_escaped(lines[r.i]),
        is_directive(lines[r.i]),
    ensures
        step(lines, r, answers, ctx) == StepV::Next(
            line_out(r, lines[r.i], lines[r.i].drop_first()),
        ),
{
    let line = lines[r.i];
    reveal_strlit("\\include");
    reveal_strlit("\\ifdef");
    reveal_strlit("\\ifndef");
    reveal_strlit("\\ifeval");
    reveal_strlit("//");
    reveal_strlit("```");
    lemma_first_char(line, "\\include"@);
    lemma_first_char(line, "\\ifdef"@);
    lemma_first_char(line, "\\ifndef"@);
    lemma_first_char(line, "\\ifeval"@);
    lemma_first_char(line, "//"@);
    assert(delimiter_of(line) is None) by {
        assert(trim_start_spec(line) =~= line);
        let t = trim_spec(line);
        if t.len() > 0 {
            assert(t[0] == line[0]);
            lemma_first_char(t, "```"@);
        }
    }
}

// ---------------------------------------------------------------------------
// Executable operations.
// ---------------------------------------------------------------------------

/// What was put out.
#[derive(Debug)]
pub struct PreprocessorState {
    lines: Vec<String>,
    byte_offset: usize,
    leveloffset_ranges: Vec<LeveloffsetRange>,
    source_ranges: Vec<SourceRange>,
    include_expansions: Vec<IncludeExpansion>,
    conditional_drops: Vec<usize>,
}

impl DeepView for PreprocessorState {
    type V = OutV;

    closed spec fn deep_view(&self) -> OutV {
        OutV {
            lines: self.lines.deep_view(),
            bytes: self.byte_offset as int,
            levels: self.leveloffset_ranges.deep_view(),
            sources: self.source_ranges.deep_view(),
            expansions: self.include_expansions.deep_view(),
            drops: self.conditional_drops@.map_values(|n: usize| n as int),
        }
    }
}

impl PreprocessorState {
    /// Nothing put out.
    pub fn new() -> (r: PreprocessorState)
        ensures
            r.deep_view() == nothing_out(),
    {
        let r = PreprocessorState {
            lines: Vec::new(),
            byte_offset: 0,
            leveloffset_ranges: Vec::new(),
            source_ranges: Vec::new(),
            include_expansions: Vec::new(),
            conditional_drops: Vec::new(),
        };
        assert(r.deep_view() =~= nothing_out());
        r
    }

    /// Put out a line.
    pub fn push_line(&mut self, line: String)
        ensures
            final(self).deep_view() == pushed(old(self).deep_view(), line@),
    {
        let ghost before = self.lines.deep_view();
        let n = byte_len(line.as_str());
        self.byte_offset = self.byte_offset.saturating_add(n).saturating_add(1);
        self.lines.push(line);
        assert(self.lines.deep_view() =~= before.push(line@));
    }
}

/// The bytes that lines take with a line feed behind each.
fn content_bytes(lines: &Vec<String>) -> (r: usize)
    ensures
        r == saturated(lines_blen(lines.deep_view()) as int),
{
    let mut total: usize = 0;
    let mut i: usize = 0;
    let ghost lv = lines.deep_view();
    assert(lv.take(0) =~= Seq::empty());
    while i < lines.len()
        invariant
            i <= lines@.len(),
            lv == lines.deep_view(),
            total == saturated(lines_blen(lv.take(i as int)) as int),
        decreases lines.len() - i,
    {
        proof {
            lemma_lines_blen_step(lv, i as int);
            assert(lv[i as int] == lines@[i as int]@);
        }
        total = total.saturating_add(byte_len(lines[i].as_str())).saturating_add(1);
        i += 1;
    }
    assert(lv.take(i as int) =~= lv);
    total
}

/// Put out the content that a directive on the line `directive_source_line` asked
/// for.
pub fn handle_include_result(
    include_result: &IncludeResult,
    state: &mut PreprocessorState,
    directive_source_line: usize,
    is_root_depth: bool,
)
    ensures
        final(state).deep_view() == with_content(
            old(state).deep_view(),
            include_result.deep_view(),
            directive_source_line as int,
            is_root_depth,
        ),
{
    let ghost before = state.deep_view();
    let ghost content = include_result.deep_view();
    let ghost want = with_content(before, content, directive_source_line as int, is_root_depth);
    let start = state.byte_offset;
    let end = start.saturating_add(content_bytes(&include_result.lines));
    match include_result.effective_leveloffset {
        Some(value) => if value != 0 {
            let ghost levels = state.leveloffset_ranges.deep_view();
            state.leveloffset_ranges.push(
                LeveloffsetRange { start_offset: start, end_offset: end, value },
            );
            assert(state.leveloffset_ranges.deep_view() =~= levels.push(
                (start as int, end as int, value as int),
            ));
        },
        None => {},
    }
    let ghost own_levels = state.leveloffset_ranges.deep_view();
    let ghost moved = moved_levels(content.levels, start as int);
    let mut k: usize = 0;
    assert(own_levels + moved.take(0) =~= own_levels);
    while k < include_result.nested_leveloffset_ranges.len()
        invariant
            k <= include_result.nested_leveloffset_ranges@.len(),
            content == include_result.deep_view(),
            moved == moved_levels(content.levels, start as int),
            state.leveloffset_ranges.deep_view() == own_levels + moved.take(k as int),
            state.lines.deep_view() == before.lines,
            state.source_ranges.deep_view() == before.sources,
            state.include_expansions.deep_view() == before.expansions,
            state.conditional_drops@.map_values(|n: usize| n as int) == before.drops,
        decreases include_result.nested_leveloffset_ranges.len() - k,
    {
        let nested = include_result.nested_leveloffset_ranges[k];
        let ghost levels = state.leveloffset_ranges.deep_view();
        assert(content.levels[k as int] == nested.deep_view());
        state.leveloffset_ranges.push(
            LeveloffsetRange {
                start_offset: nested.start_offset.saturating_add(start),
                end_offset: nested.end_offset.saturating_add(start),
                value: nested.value,
            },
        );
        assert(state.leveloffset_ranges.deep_view() =~= levels.push(moved[k as int]));
        assert(own_levels + moved.take(k + 1) =~= (own_levels + moved.take(k as int)).push(
            moved[k as int],
        ));
        k += 1;
    }
    assert(moved.take(k as int) =~= moved);
    assert(state.leveloffset_ranges.deep_view() =~= want.levels);
    match &include_result.file {
        Some(file) => {
            let ghost sources = state.source_ranges.deep_view();
            state.source_ranges.push(
                SourceRange {
                    start_offset: start,
                    end_offset: end,
                    file: file.clone(),
                    start_line: 1,
                },
            );
            let ghost own = sources.push((start as int, end as int, file@, 1int));
            assert(state.source_ranges.deep_view() =~= own);
            let ghost moved = moved_sources(content.sources, start as int);
            let mut k: usize = 0;
            assert(own + moved.take(0) =~= own);
            while k < include_result.nested_source_ranges.len()
                invariant
                    k <= include_result.nested_source_ranges@.len(),
                    content == include_result.deep_view(),
                    moved == moved_sources(content.sources, start as int),
                    state.source_ranges.deep_view() == own + moved.take(k as int),
                    state.leveloffset_ranges.deep_view() == want.levels,
                    state.lines.deep_view() == before.lines,
                    state.include_expansions.deep_view() == before.expansions,
                    state.conditional_drops@.map_values(|n: usize| n as int) == before.drops,
                decreases include_result.nested_source_ranges.len() - k,
            {
                let nested = &include_result.nested_source_ranges[k];
                let ghost ranges = state.source_ranges.deep_view();
                assert(content.sources[k as int] == nested.deep_view());
                let range = SourceRange {
                    start_offset: nested.start_offset.saturating_add(start),
                    end_offset: nested.end_offset.saturating_add(start),
                    file: nested.file.clone(),
                    start_line: nested.start_line,
                };
                assert(range.deep_view() =~= moved[k as int]);
                state.source_ranges.push(range);
                assert(state.source_ranges.deep_view() =~= ranges.push(moved[k as int]));
                assert(own + moved.take(k + 1) =~= (own + moved.take(k as int)).push(
                    moved[k as int],
                ));
                k += 1;
            }
            assert(moved.take(k as int) =~= moved);
        },
        None => {},
    }
    assert(state.source_ranges.deep_view() =~= want.sources);
    if is_root_depth {
        let ghost expansions = state.include_expansions.deep_view();
        state.include_expansions.push(
            IncludeExpansion {
                source_line: directive_source_line,
                expanded_lines: include_result.lines.len(),
            },
        );
        assert(state.include_expansions.deep_view() =~= expansions.push(
            (directive_source_line as int, include_result.lines@.len() as int),
        ));
        assert(content.lines.len() == include_result.lines@.len());
    }
    state.byte_offset = end;
    let ghost own_lines = state.lines.deep_view();
    let mut j: usize = 0;
    assert(own_lines + content.lines.take(0) =~= own_lines);
    while j < include_result.lines.len()
        invariant
            j <= include_result.lines@.len(),
            content == include_result.deep_view(),
            own_lines == before.lines,
            state.lines.deep_view() == own_lines + content.lines.take(j as int),
            state.byte_offset == end,
            state.leveloffset_ranges.deep_view() == want.levels,
            state.source_ranges.deep_view() == want.sources,
            state.include_expansions.deep_view() == want.expansions,
            state.conditional_drops@.map_values(|n: usize| n as int) == before.drops,
        decreases include_result.lines.len() - j,
    {
        let ghost now = state.lines.deep_view();
        state.lines.push(include_result.lines[j].clone());
        assert(content.lines[j as int] == include_result.lines@[j as int]@);
        assert(state.lines.deep_view() =~= now.push(content.lines[j as int]));
        assert(own_lines + content.lines.take(j + 1) =~= (own_lines + content.lines.take(
            j as int,
        )).push(content.lines[j as int]));
        j += 1;
    }
    assert(content.lines.take(j as int) =~= content.lines);
    assert(state.deep_view() =~= want);
}

fn escaped_line(line: &str) -> (r: bool)
    ensures
        r == is_escaped(line@),
{
    starts_with(line, "\\include") || starts_with(line, "\\ifdef") || starts_with(
        line,
        "\\ifndef",
    ) || starts_with(line, "\\ifeval")
}

fn conditional_line(line: &str) -> (r: bool)
    ensures
        r == is_conditional(line@),
{
    starts_with(line, "ifdef") || starts_with(line, "ifndef") || starts_with(line, "ifeval")
}

fn directive_line(line: &str) -> (r: bool)
    ensures
        r == is_directive(line@),
{
    let n: usize = line.unicode_len();
    n > 0 && line.get_char(n - 1) == ']' && line.get_char(0) != '[' && contains(line, "::")
}

fn hard_wrapped(line: &str) -> (r: bool)
    ensures
        r == wraps_hard(line@),
{
    ends_with(line, " + \\")
}

fn wrapped_line(line: &str) -> (r: bool)
    ensures
        r == wraps(line@),
{
    hard_wrapped(line) || ends_with(line, " \\")
}

fn attribute_start(line: &str) -> (r: bool)
    ensures
        r == is_attribute(line@),
{
    line.unicode_len() > 0 && line.get_char(0) == ':'
}

/// Whether a text is put out as it is: none of its lines is a directive, an escaped
/// directive or a wrapped attribute.
pub fn try_pass_through(text: &str) -> (r: bool)
    ensures
        r == passes_through(text@),
{
    let all = lines(text);
    let ghost lv = lines_spec(text@);
    assert(all.deep_view() == lv);
    assert(lv.len() == all@.len());
    let mut i: usize = 0;
    while i < all.len()
        invariant
            i <= all@.len(),
            all.deep_view() == lv,
            lv == lines_spec(text@),
            forall|k: int| 0 <= k < i ==> !is_trigger(#[trigger] lv[k]),
        decreases all.len() - i,
    {
        let line = all[i];
        assert(lv[i as int] == line@);
        if escaped_line(line) || (attribute_start(line) && wrapped_line(line)) || (directive_line(
            line,
        ) && (conditional_line(line) || starts_with(line, "include"))) {
            assert(is_trigger(lv[i as int]));
            return false;
        }
        i += 1;
    }
    true
}

/// The delimiter of a block whose lines are kept as they are, if the line is one:
/// four or more hyphens, periods or plus signs, or three or more backticks.
pub fn is_verbatim_delimiter<'a>(line: &'a str) -> (r: Option<&'a str>)
    ensures
        opt_view(r) == delimiter_of(line@),
{
    let trimmed = trim(line);
    if starts_with(trimmed, "```") {
        return Some("```");
    }
    let cs = chars_of(trimmed);
    if cs.len() == 0 {
        return None;
    }
    let c = cs[0];
    if c != '-' && c != '.' && c != '+' {
        return None;
    }
    let mut k: usize = 0;
    assert(trimmed@.skip(0) =~= trimmed@);
    while k < cs.len() && cs[k] == c
        invariant
            k <= cs@.len(),
            cs@ == trimmed@,
            run_of(trimmed@, c) == k + run_of(trimmed@.skip(k as int), c),
        decreases cs.len() - k,
    {
        assert(trimmed@.skip(k as int).drop_first() =~= trimmed@.skip(k + 1));
        k += 1;
    }
    assert(run_of(trimmed@.skip(k as int), c) == 0);
    if k >= 4 {
        let found = trimmed.substring_char(0, k);
        assert(found@ =~= trimmed@.take(k as int));
        Some(found)
    } else {
        None
    }
}

fn strip_backslashes(s: &str) -> (r: &str)
    ensures
        r@ == without_backslashes(s@),
{
    let cs = chars_of(s);
    let mut n: usize = cs.len();
    assert(s@.take(n as int) =~= s@);
    while n > 0 && cs[n - 1] == '\\'
        invariant
            n <= cs@.len(),
            cs@ == s@,
            without_backslashes(s@) == without_backslashes(s@.take(n as int)),
        decreases n,
    {
        assert(s@.take(n as int).drop_last() =~= s@.take(n - 1));
        n -= 1;
    }
    let r = s.substring_char(0, n);
    assert(r@ =~= s@.take(n as int));
    r
}

/// Add to an attribute what a line of it adds.
fn push_wrapped(content: &mut String, line: &str)
    ensures
        final(content)@ == old(content)@ + wrapped_piece(line@),
{
    let ghost before = content@;
    if hard_wrapped(line) {
        content.append(line);
        content.push('\n');
        assert(content@ =~= before + (line@ + seq!['\n']));
    } else {
        content.append(strip_backslashes(line));
    }
}

/// Add to an attribute the lines from `from` on that belong to it. Gives the line
/// behind them.
pub fn process_continuation(attribute_content: &mut String, lines: &[&str], from: usize) -> (r:
    usize)
    requires
        from <= lines@.len(),
    ensures
        (final(attribute_content)@, r as int) == wrapped(
            lines.deep_view(),
            from as int,
            old(attribute_content)@,
        ),
        from <= r <= lines@.len(),
{
    let ghost lv = lines.deep_view();
    let ghost want = wrapped(lv, from as int, attribute_content@);
    let mut j: usize = from;
    while j < lines.len()
        invariant_except_break
            want == wrapped(lv, j as int, attribute_content@),
        invariant
            from <= j <= lines@.len(),
            lv == lines.deep_view(),
        ensures
            from <= j <= lines@.len(),
            want == (attribute_content@, j as int),
        decreases lines.len() - j,
    {
        let line = trim(lines[j]);
        assert(lv[j as int] == lines@[j as int]@);
        if line.unicode_len() == 0 || line.get_char(0) == ':' {
            break;
        }
        if wrapped_line(line) {
            push_wrapped(attribute_content, line);
            j += 1;
        } else {
            attribute_content.append(line);
            j += 1;
            break;
        }
    }
    j
}

/// The lines from `from` on that a condition governs, the line behind them, and
/// whether that line is an end.
fn read_body(lines: &[&str], from: usize) -> (r: (String, usize, bool))
    requires
        from <= lines@.len(),
    ensures
        (r.0@, r.1 as int, r.2) == body(lines.deep_view(), from as int, Seq::empty()),
        from <= r.1 <= lines@.len(),
        r.2 ==> r.1 < lines@.len(),
{
    let ghost lv = lines.deep_view();
    let ghost want = body(lv, from as int, Seq::empty());
    let mut content = String::new();
    let mut j: usize = from;
    assert(content@ =~= Seq::<char>::empty());
    while j < lines.len()
        invariant
            from <= j <= lines@.len(),
            lv == lines.deep_view(),
            want == body(lv, from as int, Seq::empty()),
            want == body(lv, j as int, content@),
        decreases lines.len() - j,
    {
        let line = lines[j];
        assert(lv[j as int] == line@);
        if line.unicode_len() == 0 {
            return (content, j, false);
        }
        if starts_with(line, "endif") {
            return (content, j, true);
        }
        let ghost before = content@;
        content.append(line);
        content.push('\n');
        assert(content@ =~= before + line@ + seq!['\n']);
        j += 1;
    }
    (content, j, false)
}

fn count_feeds(s: &str) -> (r: usize)
    ensures
        r == feeds(s@),
        r <= s@.len(),
{
    let cs = chars_of(s);
    let mut n: usize = 0;
    let mut k: usize = 0;
    assert(s@.take(0) =~= Seq::empty());
    while k < cs.len()
        invariant
            k <= cs@.len(),
            cs@ == s@,
            n <= k,
            n == feeds(s@.take(k as int)),
        decreases cs.len() - k,
    {
        assert(s@.take(k + 1).drop_last() =~= s@.take(k as int));
        if cs[k] == '\n' {
            n += 1;
        }
        k += 1;
    }
    assert(s@.take(k as int) =~= s@);
    n
}

/// How far it has come.
struct Cursor<'a> {
    i: usize,
    offset: usize,
    attributes: DocumentAttributes<'a>,
    used: usize,
    out: PreprocessorState,
}

/// How far it has come, with the warnings.
spec fn run_of_cursor(c: Cursor<'_>, warnings: Seq<WarningV>) -> RunV {
    RunV {
        i: c.i as int,
        number: c.i + 1,
        offset: c.offset as int,
        attributes: c.attributes@,
        used: c.used as int,
        out: c.out.deep_view(),
        warnings,
    }
}

/// What came of one line.
spec fn step_of(
    r: Result<Option<Request>, Error>,
    c: Cursor<'_>,
    warnings: Seq<WarningV>,
) -> StepV {
    match r {
        Ok(None) => StepV::Next(run_of_cursor(c, warnings)),
        Ok(Some(q)) => StepV::Stop(EndV::Needs(q.deep_view()), warnings),
        Err(e) => StepV::Stop(EndV::Failed(e.deep_view()), warnings),
    }
}

/// The numbers of a cursor are within bounds.
spec fn cursor_ok(c: Cursor<'_>, lines: int) -> bool {
    c.i <= lines
}

fn add_warning_at(warnings: &mut Vec<Warning>, message: &'static str, location: SourceLocation)
    ensures
        final(warnings).deep_view() == old(warnings).deep_view().push(
            (WarningV { message: message@, location: Some(location.deep_view()) }),
        ),
{
    let ghost before = warnings.deep_view();
    let warning = Warning { message: message.to_owned(), location: Some(location) };
    let ghost wv = warning.deep_view();
    warnings.push(warning);
    assert(warnings.deep_view() =~= before.push(wv));
}

/// Add the warnings that reading a file gave.
fn add_warnings(warnings: &mut Vec<Warning>, more: &Vec<Warning>)
    ensures
        final(warnings).deep_view() == old(warnings).deep_view() + more.deep_view(),
{
    let ghost before = warnings.deep_view();
    let ghost mv = more.deep_view();
    let mut k: usize = 0;
    assert(before + mv.take(0) =~= before);
    while k < more.len()
        invariant
            k <= more@.len(),
            mv == more.deep_view(),
            warnings.deep_view() == before + mv.take(k as int),
        decreases more.len() - k,
    {
        let ghost now = warnings.deep_view();
        assert(mv[k as int] == more@[k as int].deep_view());
        warnings.push(more[k].copied());
        assert(warnings.deep_view() =~= now.push(mv[k as int]));
        assert(before + mv.take(k + 1) =~= (before + mv.take(k as int)).push(mv[k as int]));
        k += 1;
    }
    assert(mv.take(k as int) =~= mv);
}

/// The offset of the line `to`, where the line `from` is at `offset`.
fn offset_behind(lines: &[&str], from: usize, to: usize, offset: usize) -> (r: usize)
    requires
        from <= to <= lines@.len(),
    ensures
        r == saturated(
            offset + lines_blen(lines.deep_view().subrange(from as int, to as int)),
        ),
{
    let ghost lv = lines.deep_view();
    let mut at: usize = offset;
    let mut k: usize = from;
    assert(lv.subrange(from as int, from as int) =~= Seq::empty());
    while k < to
        invariant
            from <= k <= to <= lines@.len(),
            lv == lines.deep_view(),
            at == saturated(offset + lines_blen(lv.subrange(from as int, k as int))),
        decreases to - k,
    {
        proof {
            let before = lv.subrange(from as int, k as int);
            lemma_lines_blen_push(before, lv[k as int]);
            assert(lv.subrange(from as int, k + 1) =~= before.push(lv[k as int]));
            assert(lv[k as int] == lines@[k as int]@);
        }
        at = at.saturating_add(byte_len(lines[k])).saturating_add(1);
        k += 1;
    }
    at
}

/// Whether a path leads into a directory.
pub fn path_has_parent(path: &str) -> (r: bool)
    ensures
        r == has_parent(path@),
{
    let cs = chars_of(path);
    let mut k: usize = 0;
    while k < cs.len()
        invariant
            k <= cs@.len(),
            cs@ == path@,
            forall|j: int| 0 <= j < k && #[trigger] path@[j] != '/' ==> is_lone_dot(path@, j),
        decreases cs.len() - k,
    {
        let lone_dot = cs[k] == '.' && k > 0 && cs[k - 1] == '/' && (k + 1 == cs.len() || cs[k + 1]
            == '/');
        if cs[k] != '/' && !lone_dot {
            assert(path@[k as int] != '/' && !is_lone_dot(path@, k as int));
            return true;
        }
        k += 1;
    }
    false
}

/// Goes through a source, at some depth of nesting.
#[derive(Debug)]
pub struct Preprocessor {
    pub depth: usize,
}

impl Preprocessor {
    /// The place that the preprocessor speaks of. It goes by lines and knows no
    /// columns, so the place is the start of the line.
    pub fn create_source_location(line_number: usize, file_parent: Option<&str>) -> (r:
        SourceLocation)
        ensures
            r.deep_view() == place_of(opt_view(file_parent), line_number as int),
    {
        SourceLocation::of_line(line_number, file_parent)
    }

    /// Put a line out and go on to the next.
    fn put_line(&self, cursor: &mut Cursor<'_>, line: &str, text: String, lines: &[&str])
        requires
            old(cursor).i < lines@.len() <= usize::MAX,
            cursor_ok(*old(cursor), lines@.len() as int),
        ensures
            forall|w: Seq<WarningV>|
                #![trigger run_of_cursor(*final(cursor), w)]
                run_of_cursor(*final(cursor), w) == line_out(
                    run_of_cursor(*old(cursor), w),
                    line@,
                    text@,
                ),
            cursor_ok(*final(cursor), lines@.len() as int),
    {
        cursor.out.push_line(text);
        cursor.i = cursor.i + 1;
        cursor.offset = cursor.offset.saturating_add(byte_len(line)).saturating_add(1);
    }

    /// Take a conditional directive, with the lines that it governs.
    fn process_conditional(
        &self,
        lines: &[&str],
        cursor: &mut Cursor<'_>,
        answers: &[Answer],
        warnings: &mut Vec<Warning>,
        file_parent: Option<&str>,
    ) -> (r: Result<Option<Request>, Error>)
        requires
            old(cursor).i < lines@.len() <= usize::MAX,
            cursor_ok(*old(cursor), lines@.len() as int),
            old(cursor).used <= answers@.len(),
        ensures
            step_of(r, *final(cursor), final(warnings).deep_view()) == conditional_step(
                lines.deep_view(),
                run_of_cursor(*old(cursor), old(warnings).deep_view()),
                answers.deep_view(),
                (ContextV { file: opt_view(file_parent), depth: self.depth as int }),
            ),
            r matches Ok(None) ==> cursor_ok(*final(cursor), lines@.len() as int)
                && final(cursor).used <= answers@.len(),
    {
        let i = cursor.i;
        let number = i + 1;
        let line = lines[i];
        let ghost lv = lines.deep_view();
        assert(lv[i as int] == line@);
        let condition = match conditional::parse_line(line) {
            Some(c) => c,
            None => {
                return Err(
                    Error::InvalidConditionalDirective(
                        Self::create_source_location(number, file_parent),
                    ),
                );
            },
        };
        let ghost cv = condition.deep_view();
        let own = condition.own_text();
        let (content, j, at_end) = if own.is_some() {
            (String::new(), i + 1, false)
        } else {
            read_body(lines, i + 1)
        };
        assert((content@, j as int, at_end) == governed(lv, i as int, cv));
        let mut k: usize = j;
        if at_end {
            assert(lv[j as int] == lines@[j as int]@);
            let end_number = j + 1;
            match conditional::parse_endif(lines[j]) {
                None => {
                    return Err(
                        Error::InvalidConditionalDirective(
                            Self::create_source_location(end_number, file_parent),
                        ),
                    );
                },
                Some(target) => {
                    if !condition.closed_by(target.as_str()) {
                        add_warning_at(
                            warnings,
                            "attribute mismatch between if and endif directives",
                            Self::create_source_location(end_number, file_parent),
                        );
                        return Err(
                            Error::InvalidConditionalDirective(
                                Self::create_source_location(end_number, file_parent),
                            ),
                        );
                    }
                },
            }
            k = j + 1;
        }
        let mut used = cursor.used;
        let truth = match condition.is_true(&cursor.attributes) {
            Some(b) => b,
            None => {
                let given: Option<bool> = if used < answers.len() {
                    assert(answers.deep_view()[used as int] == answers@[used as int].deep_view());
                    match &answers[used] {
                        Answer::Truth(b) => Some(*b),
                        Answer::Content(_) => None,
                    }
                } else {
                    None
                };
                match given {
                    Some(b) => {
                        used = used + 1;
                        b
                    },
                    None => {
                        let expression = match condition {
                            Conditional::Ifeval(e) => e,
                            _ => String::new(),
                        };
                        let file: Option<String> = match file_parent {
                            Some(path) => Some(path.to_owned()),
                            None => None,
                        };
                        return Ok(
                            Some(
                                Request::Truth {
                                    expression,
                                    line_number: number,
                                    offset: cursor.offset,
                                    file,
                                    attributes: cursor.attributes.clone().into_static(),
                                },
                            ),
                        );
                    },
                }
            },
        };
        let kept: Option<String> = if truth {
            match own {
                Some(text) => Some(text),
                None => Some(content),
            }
        } else {
            None
        };
        let ghost kv = opt_string(kept);
        assert(kv == kept_of(cv, content@, truth));
        let taken = k - i;
        let given: usize = match &kept {
            Some(text) => {
                let n = count_feeds(text.as_str());
                n.saturating_add(1)
            },
            None => 0,
        };
        match kept {
            Some(text) => cursor.out.push_line(text),
            None => {},
        }
        if self.depth == 0 {
            let ghost drops = cursor.out.conditional_drops@.map_values(|n: usize| n as int);
            let ghost out = cursor.out.deep_view();
            let ghost more = dropped(number as int, taken as int, kv);
            let count: usize = if taken > given {
                taken - given
            } else {
                0
            };
            assert(count == more.len());
            let mut d: usize = 0;
            assert(drops + more.take(0) =~= drops);
            while d < count
                invariant
                    d <= count,
                    count == more.len(),
                    count <= taken,
                    number + taken <= usize::MAX + 1,
                    more == dropped(number as int, taken as int, kv),
                    cursor.out.conditional_drops@.map_values(|n: usize| n as int) == drops
                        + more.take(d as int),
                    cursor.out.deep_view() == (OutV { drops: drops + more.take(d as int), ..out }),
                    cursor.i == i,
                    cursor.offset == old(cursor).offset,
                    cursor.attributes == old(cursor).attributes,
                    cursor.used == old(cursor).used,
                decreases count - d,
            {
                let ghost now = cursor.out.conditional_drops@.map_values(|n: usize| n as int);
                cursor.out.conditional_drops.push(number + d);
                assert(cursor.out.conditional_drops@.map_values(|n: usize| n as int) =~= now.push(
                    more[d as int],
                ));
                assert(drops + more.take(d + 1) =~= (drops + more.take(d as int)).push(
                    more[d as int],
                ));
                d += 1;
            }
            assert(more.take(d as int) =~= more);
        }
        cursor.offset = offset_behind(lines, i, k, cursor.offset);
        cursor.i = k;
        cursor.used = used;
        Ok(None)
    }

    /// Take a directive that asks for the content of a file.
    fn process_include(
        &self,
        lines: &[&str],
        cursor: &mut Cursor<'_>,
        answers: &[Answer],
        warnings: &mut Vec<Warning>,
        file_parent: Option<&str>,
    ) -> (r: Result<Option<Request>, Error>)
        requires
            old(cursor).i < lines@.len() <= usize::MAX,
            cursor_ok(*old(cursor), lines@.len() as int),
            old(cursor).used <= answers@.len(),
        ensures
            step_of(r, *final(cursor), final(warnings).deep_view()) == content_step(
                lines.deep_view(),
                run_of_cursor(*old(cursor), old(warnings).deep_view()),
                answers.deep_view(),
                (ContextV { file: opt_view(file_parent), depth: self.depth as int }),
            ),
            r matches Ok(None) ==> cursor_ok(*final(cursor), lines@.len() as int)
                && final(cursor).used <= answers@.len(),
    {
        let i = cursor.i;
        let number = i + 1;
        let line = lines[i];
        assert(lines.deep_view()[i as int] == line@);
        let mut found = false;
        if self.depth >= MAX_INCLUDE_DEPTH {
            add_warning_at(
                warnings,
                "include depth exceeded 64 — possible cyclic include; skipping",
                Self::create_source_location(number, file_parent),
            );
        } else {
            match file_parent {
                None => {
                    add_warning_at(
                        warnings,
                        "include directive cannot be processed: no file context (set `virtual_current_file` or use `parse_file`)",
                        Self::create_source_location(number, file_parent),
                    );
                },
                Some(file) => {
                    if path_has_parent(file) {
                        let used = cursor.used;
                        if used < answers.len() {
                            assert(answers.deep_view()[used as int]
                                == answers@[used as int].deep_view());
                            match &answers[used] {
                                Answer::Content(result) => {
                                    handle_include_result(
                                        result,
                                        &mut cursor.out,
                                        number,
                                        self.depth == 0,
                                    );
                                    add_warnings(warnings, &result.warnings);
                                    cursor.used = used + 1;
                                    found = true;
                                },
                                Answer::Truth(_) => {},
                            }
                        }
                        if !found {
                            return Ok(
                                Some(
                                    Request::Content {
                                        line: line.to_owned(),
                                        line_number: number,
                                        offset: cursor.offset,
                                        file: file.to_owned(),
                                        depth: self.depth,
                                        attributes: cursor.attributes.clone().into_static(),
                                    },
                                ),
                            );
                        }
                    }
                },
            }
        }
        if !found && self.depth == 0 {
            let ghost before = cursor.out.include_expansions.deep_view();
            cursor.out.include_expansions.push(
                IncludeExpansion { source_line: number, expanded_lines: 0 },
            );
            assert(cursor.out.include_expansions.deep_view() =~= before.push((number as int, 0int)));
        }
        cursor.i = i + 1;
        cursor.offset = cursor.offset.saturating_add(byte_len(line)).saturating_add(1);
        Ok(None)
    }

    /// Take a line in the form of a directive.
    fn process_directive_line(
        &self,
        lines: &[&str],
        cursor: &mut Cursor<'_>,
        answers: &[Answer],
        warnings: &mut Vec<Warning>,
        file_parent: Option<&str>,
    ) -> (r: Result<Option<Request>, Error>)
        requires
            old(cursor).i < lines@.len() <= usize::MAX,
            cursor_ok(*old(cursor), lines@.len() as int),
            old(cursor).used <= answers@.len(),
            is_directive(lines.deep_view()[old(cursor).i as int]),
            delimiter_of(lines.deep_view()[old(cursor).i as int]) is None,
            !starts_with_spec(lines.deep_view()[old(cursor).i as int], "//"@),
        ensures
            step_of(r, *final(cursor), final(warnings).deep_view()) == plain_step(
                lines.deep_view(),
                run_of_cursor(*old(cursor), old(warnings).deep_view()),
                answers.deep_view(),
                (ContextV { file: opt_view(file_parent), depth: self.depth as int }),
            ),
            r matches Ok(None) ==> cursor_ok(*final(cursor), lines@.len() as int)
                && final(cursor).used <= answers@.len(),
    {
        let line = lines[cursor.i];
        assert(lines.deep_view()[cursor.i as int] == line@);
        if escaped_line(line) {
            let n: usize = line.unicode_len();
            let text = line.substring_char(1, n);
            assert(text@ =~= line@.drop_first());
            self.put_line(cursor, line, text.to_owned(), lines);
            Ok(None)
        } else if conditional_line(line) {
            self.process_conditional(lines, cursor, answers, warnings, file_parent)
        } else if starts_with(line, "include") {
            self.process_include(lines, cursor, answers, warnings, file_parent)
        } else {
            self.put_line(cursor, line, line.to_owned(), lines);
            Ok(None)
        }
    }

    /// Take one line, or the lines of a wrapped attribute.
    fn process_line(
        &self,
        lines: &[&str],
        cursor: &mut Cursor<'_>,
        answers: &[Answer],
        warnings: &mut Vec<Warning>,
        file_parent: Option<&str>,
    ) -> (r: Result<Option<Request>, Error>)
        requires
            old(cursor).i < lines@.len() <= usize::MAX,
            cursor_ok(*old(cursor), lines@.len() as int),
            old(cursor).used <= answers@.len(),
        ensures
            step_of(r, *final(cursor), final(warnings).deep_view()) == step(
                lines.deep_view(),
                run_of_cursor(*old(cursor), old(warnings).deep_view()),
                answers.deep_view(),
                (ContextV { file: opt_view(file_parent), depth: self.depth as int }),
            ),
            r matches Ok(None) ==> cursor_ok(*final(cursor), lines@.len() as int)
                && final(cursor).used <= answers@.len(),
    {
        let i = cursor.i;
        let line = lines[i];
        assert(lines.deep_view()[i as int] == line@);
        if attribute_start(line) {
            if wrapped_line(line) {
                let mut content = String::new();
                push_wrapped(&mut content, line);
                assert(content@ =~= wrapped_piece(line@));
                let j = process_continuation(&mut content, lines, i + 1);
                attribute::parse_line(&mut cursor.attributes, content.as_str());
                cursor.out.push_line(content);
                cursor.offset = offset_behind(lines, i, j, cursor.offset);
                cursor.i = j;
                return Ok(None);
            }
            attribute::parse_line(&mut cursor.attributes, trim(line));
        }
        let delimiter = is_verbatim_delimiter(line);
        if delimiter.is_some() || starts_with(line, "//") || !directive_line(line) {
            self.put_line(cursor, line, line.to_owned(), lines);
            return Ok(None);
        }
        self.process_directive_line(lines, cursor, answers, warnings, file_parent)
    }

    /// Go through a source that stands in the file `file_parent`, with the answers
    /// that were given so far.
    pub fn process_inner<'a>(
        &self,
        input: &'a str,
        file_parent: Option<&str>,
        options: &Options<'_>,
        answers: &[Answer],
        warnings: &mut Vec<Warning>,
    ) -> (r: Result<Progress<'a>, Error>)
        ensures
            (progress_view(r), final(warnings).deep_view()) == processed(
                input@,
                options@.attributes,
                answers.deep_view(),
                (ContextV { file: opt_view(file_parent), depth: self.depth as int }),
                old(warnings).deep_view(),
            ),
            passes_through(normalized(input@)) && !needs_rebuild(without_last_ending(input@)) ==> (
            r matches Ok(Progress::Done(d)) ==> d.text is Borrowed),
    {
        let ghost ctx = ContextV { file: opt_view(file_parent), depth: self.depth as int };
        let text = normalize(input);
        let plain: &str = match &text {
            Cow::Borrowed(b) => b,
            Cow::Owned(o) => o.as_str(),
        };
        if try_pass_through(plain) {
            let result = PreprocessorResult {
                text,
                leveloffset_ranges: Vec::new(),
                source_ranges: Vec::new(),
                include_expansions: Vec::new(),
                conditional_drops: Vec::new(),
            };
            assert(result.deep_view() =~= as_it_is(text@));
            return Ok(Progress::Done(result));
        }
        let all = lines(plain);
        let ghost lv = lines_spec(plain@);
        assert(all.deep_view() == lv);
        assert(lv.len() == all@.len());
        let mut cursor = Cursor {
            i: 0,
            offset: 0,
            attributes: options.document_attributes.clone(),
            used: 0,
            out: PreprocessorState::new(),
        };
        let ghost want = run(
            lv,
            run_start(options@.attributes, warnings.deep_view()),
            answers.deep_view(),
            ctx,
        );
        while cursor.i < all.len()
            invariant
                all.deep_view() == lv,
                lv.len() == all@.len(),
                cursor_ok(cursor, all@.len() as int),
                cursor.used <= answers@.len(),
                ctx == (ContextV { file: opt_view(file_parent), depth: self.depth as int }),
                lv == lines_spec(plain@),
                plain@ == normalized(input@),
                !passes_through(plain@),
                want == run(
                    lv,
                    run_start(options@.attributes, old(warnings).deep_view()),
                    answers.deep_view(),
                    ctx,
                ),
                want == run(
                    lv,
                    run_of_cursor(cursor, warnings.deep_view()),
                    answers.deep_view(),
                    ctx,
                ),
            decreases all.len() - cursor.i,
        {
            let ghost now = run_of_cursor(cursor, warnings.deep_view());
            proof {
                lemma_step_advances(lv, now, answers.deep_view(), ctx);
            }
            match self.process_line(all.as_slice(), &mut cursor, answers, warnings, file_parent) {
                Ok(None) => {},
                Ok(Some(request)) => {
                    return Ok(Progress::Needs(request));
                },
                Err(e) => {
                    return Err(e);
                },
            }
        }
        let out = cursor.out;
        let result = PreprocessorResult {
            text: Cow::Owned(join_lines(&out.lines)),
            leveloffset_ranges: out.leveloffset_ranges,
            source_ranges: out.source_ranges,
            include_expansions: out.include_expansions,
            conditional_drops: out.conditional_drops,
        };
        assert(result.deep_view() =~= done_of(out.deep_view()));
        Ok(Progress::Done(result))
    }

    /// Go through a source that stands in no file but the one that the options name.
    pub fn process<'a>(
        input: &'a str,
        options: &Options<'_>,
        answers: &[Answer],
        warnings: &mut Vec<Warning>,
    ) -> (r: Result<Progress<'a>, Error>)
        ensures
            (progress_view(r), final(warnings).deep_view()) == processed(
                input@,
                options@.attributes,
                answers.deep_view(),
                (ContextV { file: options@.virtual_current_file, depth: 0 }),
                old(warnings).deep_view(),
            ),
            passes_through(normalized(input@)) && !needs_rebuild(without_last_ending(input@)) ==> (
            r matches Ok(Progress::Done(d)) ==> d.text is Borrowed),
    {
        let file: Option<&str> = match &options.virtual_current_file {
            Some(f) => Some(f.as_str()),
            None => None,
        };
        Preprocessor { depth: 0 }.process_inner(input, file, options, answers, warnings)
    }

    /// Go through a source that stands in the file `file_path`.
    pub fn process_with_file<'a>(
        input: &'a str,
        file_path: &str,
        options: &Options<'_>,
        answers: &[Answer],
        warnings: &mut Vec<Warning>,
    ) -> (r: Result<Progress<'a>, Error>)
        ensures
            (progress_view(r), final(warnings).deep_view()) == processed(
                input@,
                options@.attributes,
                answers.deep_view(),
                (ContextV { file: Some(file_path@), depth: 0 }),
                old(warnings).deep_view(),
            ),
            passes_through(normalized(input@)) && !needs_rebuild(without_last_ending(input@)) ==> (
            r matches Ok(Progress::Done(d)) ==> d.text is Borrowed),
    {
        Preprocessor { depth: 0 }.process_inner(input, Some(file_path), options, answers, warnings)
    }

    /// Go through a file, with what was read of it. A path that leads into no
    /// directory is refused.
    pub fn process_file(
        file_path: &str,
        read: Result<Cow<'_, [u8]>, FileResolverError>,
        options: &Options<'_>,
        answers: &[Answer],
        warnings: &mut Vec<Warning>,
    ) -> (r: Result<Progress<'static>, Error>)
        ensures
            (progress_view(r), final(warnings).deep_view()) == processed_file(
                file_path@,
                read_text(read, None, file_path@),
                options@.attributes,
                answers.deep_view(),
                old(warnings).deep_view(),
            ),
    {
        if !path_has_parent(file_path) {
            return Err(
                Error::InvalidIncludePath(
                    Self::create_source_location(1, Some(file_path)),
                    file_path.to_owned(),
                ),
            );
        }
        match decode_read(read, None, file_path) {
            Err(e) => Err(e),
            Ok(input) => match Self::process_with_file(
                input.as_str(),
                file_path,
                options,
                answers,
                warnings,
            ) {
                Ok(Progress::Done(result)) => Ok(Progress::Done(result.into_owned())),
                Ok(Progress::Needs(request)) => Ok(Progress::Needs(request)),
                Err(e) => Err(e),
            },
        }
    }
}

/// How far a source was gone through, or the error.
pub open spec fn progress_view(r: Result<Progress<'_>, Error>) -> Result<ProgressV, ErrorV> {
    match r {
        Ok(p) => Ok(p.deep_view()),
        Err(e) => Err(e.deep_view()),
    }
}

impl<'a> PreprocessorResult<'a> {
    /// The same, on its own.
    pub fn into_owned(self) -> (r: PreprocessorResult<'static>)
        ensures
            r.deep_view() == self.deep_view(),
    {
        let text: String = match self.text {
            Cow::Borrowed(b) => b.to_owned(),
            Cow::Owned(o) => o,
        };
        PreprocessorResult {
            text: Cow::Owned(text),
            leveloffset_ranges: self.leveloffset_ranges,
            source_ranges: self.source_ranges,
            include_expansions: self.include_expansions,
            conditional_drops: self.conditional_drops,
        }
    }
}

} // verus!

//! How the lines of a paragraph come about.

use vstd::prelude::*;

use crate::context::{Boundary, LowerCtx};
use crate::gap::{gap_end, gap_newlines, trivia_layout, Trivia};
use crate::ir::{concat, concat3, space, verbatim, Layout};
use crate::lines::{Lines, RunRender};
use crate::prose::{flow_step, past_gap, past_token, BlockFacts, Flow, ReflowKind};
use crate::settings::WrapMode;
use crate::syntax::SyntaxKind;

verus! {

/// Nothing is in progress: what comes next starts a line.
pub open spec fn at_line_start(b: Lines) -> bool {
    b.atom.len() == 0 && b.run.len() == 0
}

/// The line `l` comes next, behind the separator `sep`. What was finished before it stays.
pub open spec fn next_line(before: Lines, after: Lines, sep: Layout, l: Layout) -> bool {
    &&& after.lines.len() == before.lines.len() + 1
    &&& after.lines.last() == l
    &&& after.seps.len() == before.seps.len() + 1
    &&& after.seps.last() == sep
    &&& forall|i: int| 0 <= i < before.seps.len() ==> #[trigger] after.seps[i] == before.seps[i]
    &&& forall|i: int| 0 <= i < before.lines.len() - 1 ==> #[trigger] after.lines[i] == before.lines[i]
}

/// Between two paragraphs stands an empty line: the line in progress ends at an empty line of the
/// source, and what comes next stands behind an empty line.
pub proof fn an_empty_line_parts_paragraphs(s: Flow, pairs: Seq<Boundary>, l: Layout)
    ensures
        at_line_start(s.with_empty_line(pairs).b),
        next_line(s.with_empty_line(pairs).b, s.with_empty_line(pairs).b.with_segment(l), Layout::EmptyLine, l),
{
    reveal(Flow::with_empty_line);
}

/// A comment ends its line: what comes next starts a new one, behind a line break. A comment
/// behind a block stays on the line of the block.
pub proof fn a_comment_ends_its_line(s: Flow, text: Seq<char>, pairs: Seq<Boundary>, l: Layout)
    requires
        !s.after_block,
    ensures
        ({
            let b = s.with_comment(text, pairs).b;
            &&& at_line_start(b)
            &&& b.lines.len() > 0
            &&& next_line(b, b.with_segment(l), Layout::HardLine, l)
        }),
{
    reveal(Flow::with_comment);
}

/// A comment on a line with words rides at the end of that line, behind one space where white space
/// stood before it.
pub proof fn a_comment_rides_on_its_line(b: Lines, text: Seq<char>)
    requires
        b.run.len() > 0,
    ensures
        b.atom.len() == 0 ==> b.with_comment(text).run.len() == b.run.len() && b.with_comment(text).run.last().layout
            == concat3(b.run.last().layout, space(), verbatim(text)) && b.with_comment(text).run.last().text
            == b.run.last().text + seq![' '] + text,
        b.atom.len() > 0 ==> b.with_comment(text).run == b.run && b.with_comment(text).atom == b.atom.push(verbatim(text)),
{
    if b.atom.len() == 0 {
        assert(b.with_comment(text).run.last().text =~= b.run.last().text + seq![' '] + text);
    }
}

/// A row break ends its line.
pub proof fn a_row_break_ends_its_line(s: Flow, l: Layout, text: Seq<char>, pairs: Seq<Boundary>, next: Layout)
    ensures
        ({
            let b = s.with_row_break(l, text, pairs).b;
            &&& at_line_start(b)
            &&& b.lines.len() > 0
            &&& next_line(b, b.with_segment(next), Layout::HardLine, next)
        }),
{
    reveal(Flow::with_row_break);
}

/// White space within a line parts two words: the word in progress is finished and the next one is
/// a word of its own on the same line.
pub proof fn white_space_parts_words(s: Flow)
    requires
        s.b.atom.len() > 0,
        !s.b.margin,
    ensures
        s.with_blank().b.atom.len() == 0,
        s.with_blank().b.run.len() == s.b.run.len() + 1,
        s.with_blank().b.run.last().layout == concat(s.b.atom),
        s.with_blank().b.run.last().text == s.b.text,
        s.with_blank().b.run.drop_last() == s.b.run,
        s.with_blank().b.lines == s.b.lines,
{
    reveal(Flow::with_blank);
    assert(s.with_blank().b.run.drop_last() =~= s.b.run);
}

/// A line break of the source that ends no line parts two words as white space does, and is
/// remembered as a place where the line was broken.
pub proof fn a_line_break_parts_words(s: Flow, pairs: Seq<Boundary>)
    requires
        s.b.atom.len() > 0,
    ensures
        s.with_newline(false, pairs).b.atom.len() == 0,
        s.with_newline(false, pairs).b.run.len() == s.b.run.len() + 1,
        s.with_newline(false, pairs).b.run.last().text == s.b.text,
        s.with_newline(false, pairs).b.lines == s.b.lines,
        s.with_newline(false, pairs).b.break_before,
{
    reveal(Flow::with_newline);
}

/// A line break that is kept ends the line.
pub proof fn a_kept_line_break_ends_the_line(s: Flow, pairs: Seq<Boundary>)
    ensures
        at_line_start(s.with_newline(true, pairs).b),
{
    reveal(Flow::with_newline);
}

/// Words that touch are one atom: no line can be broken between them.
pub proof fn touching_words_are_one_atom(s: Flow, l: Layout, text: Seq<char>)
    requires
        !s.after_block,
    ensures
        s.with_token(l, text).b.atom == s.b.atom.push(l),
        s.with_token(l, text).b.text == s.b.text + text,
        s.with_token(l, text).b.run == s.b.run,
        s.with_token(l, text).b.lines == s.b.lines,
{
    reveal(Flow::with_token);
}

/// A section stands apart: an empty line before it and one behind it, unless its label follows,
/// which comes on the next line.
pub proof fn a_section_stands_apart(
    s: Flow,
    l: Layout,
    text: Seq<char>,
    label_follows: bool,
    pairs: Seq<Boundary>,
    next: Layout,
)
    requires
        !s.b.margin,
    ensures
        ({
            let b = s.with_block_command(l, text, true, label_follows, pairs).b;
            &&& at_line_start(b)
            &&& b.seps.len() > 0
            &&& b.seps.last() == Layout::EmptyLine
            &&& next_line(
                b,
                b.with_segment(next),
                if label_follows {
                    Layout::HardLine
                } else {
                    Layout::EmptyLine
                },
                next,
            )
        }),
{
    reveal(Flow::with_block_command);
}

/// A command on a line of its own that is no section has line breaks around it.
pub proof fn a_command_line_stays_a_line(
    s: Flow,
    l: Layout,
    text: Seq<char>,
    label_follows: bool,
    pairs: Seq<Boundary>,
    next: Layout,
)
    ensures
        ({
            let b = s.with_block_command(l, text, false, label_follows, pairs).b;
            &&& at_line_start(b)
            &&& b.lines.len() > 0
            &&& next_line(b, b.with_segment(next), Layout::HardLine, next)
        }),
{
    reveal(Flow::with_block_command);
}

/// Filling a line keeps the words in order: the line is what the run holds, word by word.
pub proof fn a_filled_line_has_its_words(b: Lines, pairs: Seq<Boundary>)
    requires
        b.atom.len() == 0,
        b.run.len() > 0,
        !b.margin,
        b.render == RunRender::Fill,
    ensures
        ({
            let line = b.ended(pairs).lines.last();
            &&& line is Fill
            &&& line->Fill_0.len() == b.run.len()
            &&& forall|i: int| 0 <= i < b.run.len() ==> #[trigger] line->Fill_0[i] == b.run[i].layout
        }),
{
}

/// A block that spans lines and is a section of the paragraph stands apart in the same way.
pub proof fn a_section_block_stands_apart(
    s: Flow,
    l: Layout,
    text: Seq<char>,
    lead: Option<Layout>,
    f: BlockFacts,
    pairs: Seq<Boundary>,
    next: Layout,
)
    requires
        f.boundary && f.sectioning && !f.hugs,
        lead is None,
        !s.b.margin,
    ensures
        ({
            let b = s.with_block(l, text, lead, f, pairs).b;
            &&& at_line_start(b)
            &&& b.seps.len() > 0
            &&& b.seps.last() == Layout::EmptyLine
            &&& b.lines.last() == l
            &&& !f.label_follows ==> next_line(b, b.with_segment(next), Layout::EmptyLine, next)
        }),
{
    reveal(Flow::with_block);
    reveal(Flow::placed);
}

// ---- what the source says ------------------------------------------------------------------

/// An empty line of the source, that is white space with two line breaks or more, ends the line
/// and puts an empty line before what follows.
pub proof fn an_empty_line_of_the_source_stays(
    cx: LowerCtx,
    es: Seq<usize>,
    i: int,
    s: Flow,
    kind: ReflowKind,
    fuel: nat,
    l: Layout,
)
    requires
        0 <= i < es.len(),
        cx.t.gap(es[i] as int),
        gap_newlines(cx.t, es, i) >= 2,
    ensures
        ({
            let (next, j) = flow_step(cx, es, i, s, kind, fuel);
            &&& j == gap_end(cx.t, es, i)
            &&& at_line_start(next.b)
            &&& next_line(next.b, next.b.with_segment(l), Layout::EmptyLine, l)
        }),
{
    reveal(past_gap);
    an_empty_line_parts_paragraphs(s, cx.boundaries@, l);
}

/// White space of the source without a line break parts two words and ends no line.
pub proof fn blanks_of_the_source_part_words(cx: LowerCtx, es: Seq<usize>, i: int, s: Flow, kind: ReflowKind, fuel: nat)
    requires
        0 <= i < es.len(),
        cx.t.gap(es[i] as int),
        gap_newlines(cx.t, es, i) == 0,
        kind != ReflowKind::StatementInterior,
        s.b.atom.len() > 0,
        !s.b.margin,
    ensures
        ({
            let (next, j) = flow_step(cx, es, i, s, kind, fuel);
            &&& j == gap_end(cx.t, es, i)
            &&& next.b.atom.len() == 0
            &&& next.b.run.len() == s.b.run.len() + 1
            &&& next.b.run.last().layout == concat(s.b.atom)
            &&& next.b.lines == s.b.lines
        }),
{
    reveal(past_gap);
    white_space_parts_words(s);
}

/// One line break of the source ends a line where the lines of the source mean something, that is
/// in code and where the breaks of the author are kept, and parts two words in an argument of
/// prose that is filled.
pub proof fn a_line_break_of_the_source_is_kept_or_is_a_blank(
    cx: LowerCtx,
    es: Seq<usize>,
    i: int,
    s: Flow,
    kind: ReflowKind,
    fuel: nat,
)
    requires
        0 <= i < es.len(),
        cx.t.gap(es[i] as int),
        gap_newlines(cx.t, es, i) == 1,
        kind != ReflowKind::StatementInterior,
        s.b.atom.len() > 0,
    ensures
        ({
            let next = flow_step(cx, es, i, s, kind, fuel).0;
            &&& kind == ReflowKind::Statement || cx.wrap == WrapMode::Semantic ==> at_line_start(next.b)
            &&& kind == ReflowKind::ProseArg && cx.wrap != WrapMode::Semantic ==> next.b.atom.len() == 0
                && next.b.run.len() == s.b.run.len() + 1 && next.b.lines == s.b.lines
        }),
{
    reveal(past_gap);
    a_line_break_parts_words(s, cx.boundaries@);
    a_kept_line_break_ends_the_line(s, cx.boundaries@);
}

/// A comment of the source ends its line.
pub proof fn a_comment_of_the_source_ends_its_line(
    cx: LowerCtx,
    es: Seq<usize>,
    i: int,
    s: Flow,
    kind: ReflowKind,
    fuel: nat,
    l: Layout,
)
    requires
        0 <= i < es.len(),
        cx.t.tok_is(es[i] as int, SyntaxKind::Comment),
        !s.after_block,
    ensures
        ({
            let (next, j) = flow_step(cx, es, i, s, kind, fuel);
            &&& j == i + 1
            &&& at_line_start(next.b)
            &&& next_line(next.b, next.b.with_segment(l), Layout::HardLine, l)
        }),
{
    reveal(past_token);
    a_comment_ends_its_line(s, cx.t.txt(es[i] as int), cx.boundaries@, l);
}

/// Where the lines of the author are kept, a line break stays one and two or more leave one empty
/// line; white space without a line break stays as it is.
pub proof fn kept_lines_end_where_they_did(gap: Trivia, newlines: int)
    requires
        newlines >= 0,
    ensures
        newlines == 0 ==> trivia_layout(gap, newlines, false) == verbatim(gap.flat()),
        newlines == 1 ==> trivia_layout(gap, newlines, false) == Layout::HardLine,
        newlines >= 2 ==> trivia_layout(gap, newlines, false) == Layout::EmptyLine,
{
}

} // verus!

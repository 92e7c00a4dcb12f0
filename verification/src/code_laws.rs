//! How the lines of code come about.

use vstd::prelude::*;

use crate::ir::{concat, concat2, space, verbatim, Layout};
use crate::statements::Code;

verus! {

/// Nothing of a line is in progress.
pub open spec fn at_line_start(s: Code) -> bool {
    s.parts.len() == 0 && s.atom.len() == 0
}

/// Where a statement ends, its line does: what comes next starts a line, behind an empty line where
/// the source has one there.
pub proof fn a_statement_ends_its_line(s: Code, newlines: int, l: Layout)
    ensures
        at_line_start(s.with_boundary(newlines)),
        newlines >= 2 ==> s.with_boundary(newlines).with_line(l).seps.last() == Layout::EmptyLine,
        newlines < 2 && !at_line_start(s) ==> s.with_boundary(newlines).with_line(l).seps.last() == Layout::HardLine,
        s.with_boundary(newlines).with_line(l).lines.last() == l,
{
    reveal(Code::with_boundary);
    reveal(Code::committed);
    reveal(Code::flushed);
    reveal(Code::with_line);
}

/// White space inside a statement parts two pieces, at which the line may end, unless they have to
/// stay together: then one space stands between them.
pub proof fn white_space_parts_pieces_of_code(s: Code, newlines: int, glue: bool)
    requires
        s.atom.len() > 0,
    ensures
        ({
            let next = s.with_gap(newlines, glue);
            &&& next.atom.len() == 0
            &&& next.lines == s.lines
            &&& next.parts.len() > s.parts.len()
            &&& next.sep == Some(if glue {
                space()
            } else {
                Layout::Line
            })
        }),
{
    reveal(Code::with_gap);
    reveal(Code::flushed);
}

/// A comment in code ends its line.
pub proof fn a_comment_in_code_ends_its_line(s: Code, text: Seq<char>, l: Layout)
    requires
        !s.after_block,
    ensures
        ({
            let next = s.with_comment(text);
            &&& at_line_start(next)
            &&& next.lines.len() > 0
            &&& next.with_line(l).seps.last() == Layout::HardLine
        }),
{
    reveal(Code::with_comment);
    reveal(Code::committed);
    reveal(Code::flushed);
    reveal(Code::with_line);
}

/// A comment on a line of its own stays there, and one behind code rides on its line, behind a blank
/// where white space stood before it.
pub proof fn a_comment_in_code_keeps_its_place(s: Code, text: Seq<char>)
    requires
        !s.after_block,
    ensures
        at_line_start(s) ==> s.with_comment(text).lines.len() == s.lines.len() + 1,
        !at_line_start(s) ==> s.with_comment(text).lines.len() == s.lines.len() + 1 && s.with_comment(text).lines.last()
            == concat2(
            s.committed().lines.last(),
            Layout::ZeroWidth(
                if s.atom.len() == 0 {
                    seq![' '] + text
                } else {
                    text
                },
            ),
        ),
{
    reveal(Code::with_comment);
    reveal(Code::committed);
    reveal(Code::flushed);
    reveal(Code::with_line);
}

/// A group on lines of its own stands one step deeper than its call.
pub proof fn a_hanging_group_is_indented(s: Code, l: Layout)
    requires
        !at_line_start(s),
    ensures
        ({
            let next = s.with_hanging_block(l);
            &&& next.lines.len() == s.lines.len() + 2
            &&& next.lines.last() == Layout::Indent(Box::new(concat2(Layout::HardLine, l)))
            &&& next.seps.last() == Layout::Nil
            &&& at_line_start(next)
        }),
{
    reveal(Code::with_hanging_block);
    reveal(Code::committed);
    reveal(Code::flushed);
    reveal(Code::with_line);
}

/// Pieces that touch stay together.
pub proof fn touching_pieces_of_code_stay_together(s: Code, l: Layout)
    ensures
        s.with_piece(l).atom == s.atom.push(l),
        s.with_piece(l).parts == s.parts,
        s.with_piece(l).lines == s.lines,
{
}

/// A tie is written and holds what stands before it on its line: no break stands before it.
pub proof fn a_tie_is_written_behind_its_piece(s: Code, text: Seq<char>, glued: bool)
    ensures
        ({
            let next = s.with_tie(text, glued);
            &&& next.atom.len() == 0
            &&& next.lines == s.lines
            &&& next.parts.len() > s.parts.len()
            &&& next.parts.last() == concat(s.atom.push(verbatim(text)))
            &&& next.sep == Some(if glued {
                Layout::Nil
            } else {
                Layout::SoftLine
            })
        }),
{
    reveal(Code::with_tie);
    reveal(Code::flushed);
}

/// A group that hangs in a line goes on it where it fits, and starts a line one step deeper where the
/// line is broken. A group that does not hang touches what stands before it.
pub proof fn a_hanging_group_may_start_a_line(s: Code, l: Layout)
    requires
        s.parts.len() > 0,
        s.atom.len() == 0,
    ensures
        s.with_soft(l, true).flushed().parts == s.parts.push(Layout::Nil).push(
            concat(seq![Layout::Indent(Box::new(concat2(Layout::Line, l)))]),
        ),
        s.with_soft(l, true).lines == s.lines,
        s.with_soft(l, false).atom == s.atom.push(l),
        s.with_soft(l, false).parts == s.parts,
{
    reveal(Code::with_soft);
    reveal(Code::flushed);
    let next = s.with_soft(l, true);
    assert(next.atom =~= seq![Layout::Indent(Box::new(concat2(Layout::Line, l)))]);
    assert(next.flushed().parts =~= s.parts.push(Layout::Nil).push(concat(next.atom)));
}

} // verus!

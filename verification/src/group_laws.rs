//! When a group cannot stand on one line, and how it stands on several.

use vstd::prelude::*;

use crate::commands::{collapsed_group, one_line, OneLine};
use crate::context::LowerCtx;
use crate::expl::{branch_lines, expl_group, group_layout, group_of};
use crate::gap::{gap_end, gap_of, lemma_gap_end, trimmable};
use crate::ir::{concat, concat2, concat3, concat4, forces_break, group, if_break, indent, space, verbatim, Layout};
use crate::lower::node;
use crate::segments::{entries_layout, segmenting, separates, without_separators, Body};
use crate::syntax::SyntaxKind;

verus! {

proof fn lemma_gap_short(cx: LowerCtx, es: Seq<usize>, i: int, j: int)
    requires
        0 <= i <= j < es.len(),
        !cx.t.gap(es[j] as int),
    ensures
        gap_end(cx.t, es, i) <= j,
    decreases j - i,
{
    if i < j {
        lemma_gap_short(cx, es, i + 1, j);
    }
}

/// Elements with a comment among them have no form on one line.
pub proof fn an_argument_with_a_comment_keeps_its_lines(
    cx: LowerCtx,
    es: Seq<usize>,
    i: int,
    s: OneLine,
    open: SyntaxKind,
    close: SyntaxKind,
    j: int,
    fuel: nat,
)
    requires
        0 <= i <= j < es.len(),
        cx.t.tok_is(es[j] as int, SyntaxKind::Comment),
        open != SyntaxKind::Comment,
        close != SyntaxKind::Comment,
    ensures
        one_line(cx, es, i, s, open, close, fuel) is None,
    decreases j - i,
{
    let t = cx.t;
    let e = es[i] as int;
    if i < j {
        if t.tok_is(e, open) && s.open is Nil {
            let next = OneLine { open: verbatim(t.txt(e)), ..s };
            an_argument_with_a_comment_keeps_its_lines(cx, es, i + 1, next, open, close, j, fuel);
        } else if t.tok_is(e, close) {
            let next = OneLine { close: verbatim(t.txt(e)), ..s };
            an_argument_with_a_comment_keeps_its_lines(cx, es, i + 1, next, open, close, j, fuel);
        } else if t.gap(e) {
            lemma_gap_end(t, es, i);
            lemma_gap_short(cx, es, i, j);
            let gap = gap_of(t, es, i);
            if !(gap is Blank) {
                let next = OneLine { body: s.body.push(verbatim(gap.flat())), ..s };
                an_argument_with_a_comment_keeps_its_lines(cx, es, gap_end(t, es, i), next, open, close, j, fuel);
            }
        } else if t.tok_is(e, SyntaxKind::Comment) {
        } else if t.tok(e) {
            let next = OneLine { body: s.body.push(verbatim(t.txt(e))), ..s };
            an_argument_with_a_comment_keeps_its_lines(cx, es, i + 1, next, open, close, j, fuel);
        } else {
            let l = node(cx, e, fuel);
            if !forces_break(l) {
                let next = OneLine { body: s.body.push(l), ..s };
                an_argument_with_a_comment_keeps_its_lines(cx, es, i + 1, next, open, close, j, fuel);
            }
        }
    }
}

/// An argument with a comment in it is not put on one line.
pub proof fn a_comment_keeps_an_argument_on_several_lines(
    cx: LowerCtx,
    n: int,
    open: SyntaxKind,
    close: SyntaxKind,
    j: int,
    fuel: nat,
)
    requires
        0 <= j < cx.t.kids(n).len(),
        cx.t.tok_is(cx.t.kids(n)[j] as int, SyntaxKind::Comment),
        open != SyntaxKind::Comment,
        close != SyntaxKind::Comment,
    ensures
        collapsed_group(cx, n, open, close, fuel) is None,
{
    if fuel > 0 {
        an_argument_with_a_comment_keeps_its_lines(
            cx,
            cx.t.kids(n),
            0,
            OneLine { open: Layout::Nil, close: Layout::Nil, body: Seq::empty() },
            open,
            close,
            j,
            (fuel - 1) as nat,
        );
    }
}

/// A gap behind the comma of an entry is a place where the line may end; any other gap of a list
/// stays as it is. An empty line or a comment keeps the list from being cut.
pub proof fn a_gap_behind_a_comma_may_end_the_line(
    cx: LowerCtx,
    es: Seq<usize>,
    i: int,
    s: Body,
    open: SyntaxKind,
    close: SyntaxKind,
    normalize: bool,
    fuel: nat,
)
    requires
        0 <= i < es.len(),
        cx.t.gap(es[i] as int),
        !cx.t.tok_is(es[i] as int, open),
        !cx.t.tok_is(es[i] as int, close),
    ensures
        ({
            let gap = gap_of(cx.t, es, i);
            let here = segmenting(cx, es, i, s, open, close, normalize, fuel);
            let j = gap_end(cx.t, es, i);
            &&& gap is Blank ==> here is None
            &&& !(gap is Blank) && s.after_comma && !s.nested && normalize ==> here == segmenting(
                cx,
                es,
                j,
                Body {
                    parts: s.parts.push(Layout::TightLine),
                    splits: s.splits + 1,
                    after_comma: false,
                    entry_open: false,
                    ..s
                },
                open,
                close,
                normalize,
                fuel,
            )
            &&& !(gap is Blank) && (!s.after_comma || s.nested) ==> here == segmenting(
                cx,
                es,
                j,
                Body { parts: s.parts.push(verbatim(gap.flat())), after_comma: false, ..s },
                open,
                close,
                normalize,
                fuel,
            )
        }),
{
}

/// A comment keeps a list from being cut at its commas.
pub proof fn a_comment_keeps_a_list_whole(
    cx: LowerCtx,
    es: Seq<usize>,
    i: int,
    s: Body,
    open: SyntaxKind,
    close: SyntaxKind,
    normalize: bool,
    fuel: nat,
)
    requires
        0 <= i < es.len(),
        cx.t.tok_is(es[i] as int, SyntaxKind::Comment),
        open != SyntaxKind::Comment,
        close != SyntaxKind::Comment,
    ensures
        segmenting(cx, es, i, s, open, close, normalize, fuel) is None,
{
}

/// A group of code with a body is one line or several: opening brace, body one step deeper, closing
/// brace. The body touches the braces on one line exactly where it does in the source, and it is on
/// lines of its own where that is called for.
pub proof fn a_group_of_code_indents_its_body(
    open: Layout,
    lead: Layout,
    body: Layout,
    close: Layout,
    spaced: bool,
    forced: bool,
)
    requires
        !(body is Nil),
    ensures
        ({
            let edge = if forced || !(lead is Nil) {
                Layout::HardLine
            } else if spaced {
                Layout::Line
            } else {
                Layout::SoftLine
            };
            group_layout(group_of(open, lead, body, close, spaced, forced)) == group(
                concat4(concat2(open, lead), indent(concat2(edge, body)), edge, close),
            )
        }),
{
}

/// On several lines, each branch of a conditional of code stands on a line of its own, one step
/// deeper.
pub proof fn branches_of_code_are_indented(cx: LowerCtx, es: Seq<usize>, i: int, gap: bool, own: bool, fuel: nat)
    requires
        0 <= i < es.len(),
        !cx.t.tok(es[i] as int),
    ensures
        ({
            let lines = branch_lines(cx, es, i, gap, own, fuel);
            let branch = expl_group(cx, es[i] as int, SyntaxKind::LBrace, SyntaxKind::RBrace, fuel);
            lines.len() > 0 && lines[0] == indent(concat2(Layout::HardLine, branch))
        }),
{
}

/// A comment between the branches of a conditional of code stays on the line that it stands on: on
/// its own, or behind the branch before it, with one space where there was white space.
pub proof fn comments_between_branches_stay_in_place(
    cx: LowerCtx,
    es: Seq<usize>,
    i: int,
    gap: bool,
    own: bool,
    fuel: nat,
)
    requires
        0 <= i < es.len(),
        cx.t.tok_is(es[i] as int, SyntaxKind::Comment),
    ensures
        ({
            let lines = branch_lines(cx, es, i, gap, own, fuel);
            let comment = verbatim(cx.t.txt(es[i] as int));
            &&& lines.len() > 0
            &&& own ==> lines[0] == indent(concat2(Layout::HardLine, comment))
            &&& !own && gap ==> lines[0] == concat2(space(), comment)
            &&& !own && !gap ==> lines[0] == comment
        }),
{
}

/// A list between delimiters stays on one line where it has no place to be cut, and else is put on
/// several where it does not fit: each delimiter on its line, what is between them one step deeper.
pub proof fn a_list_is_cut_only_at_its_entries(open: Layout, entries: Seq<Layout>, close: Layout, splits: int)
    requires
        splits > 0,
    ensures
        entries_layout(open, entries, close, splits) is Group,
{
    reveal(entries_layout);
}

/// What could end a line at the end of a list is taken off, all of it and nothing else, and it is
/// remembered whether it would have read as a space.
pub proof fn separators_at_the_end_are_taken_off(parts: Seq<Layout>, splits: int, gap: bool)
    requires
        0 <= splits,
    ensures
        ({
            let (rest, left, spaced) = without_separators(parts, splits, gap);
            let n = parts.len() - rest.len();
            &&& 0 <= n
            &&& rest == parts.take(rest.len() as int)
            &&& rest.len() > 0 ==> !separates(rest.last())
            &&& forall|k: int| rest.len() <= k < parts.len() ==> separates(#[trigger] parts[k])
            &&& left == (if splits > n {
                splits - n
            } else {
                0
            })
            &&& spaced <==> gap || exists|k: int| rest.len() <= k < parts.len() && #[trigger] parts[k] is Line
        }),
    decreases parts.len(),
{
    if parts.len() > 0 && separates(parts.last()) {
        let front = parts.drop_last();
        let fewer = if splits > 0 {
            splits - 1
        } else {
            0
        };
        let now = gap || parts.last() is Line;
        separators_at_the_end_are_taken_off(front, fewer, now);
        let rest = without_separators(front, fewer, now).0;
        assert(front.take(rest.len() as int) =~= parts.take(rest.len() as int));
        assert forall|k: int| rest.len() <= k < parts.len() implies separates(#[trigger] parts[k]) by {
            if k < front.len() {
                assert(parts[k] == front[k]);
            }
        }
        if parts.last() is Line {
            assert(parts[parts.len() - 1] is Line);
        }
        if exists|k: int| rest.len() <= k < front.len() && #[trigger] front[k] is Line {
            let k = choose|k: int| rest.len() <= k < front.len() && #[trigger] front[k] is Line;
            assert(parts[k] is Line);
        }
        if exists|k: int| rest.len() <= k < parts.len() && #[trigger] parts[k] is Line {
            let k = choose|k: int| rest.len() <= k < parts.len() && #[trigger] parts[k] is Line;
            if k < front.len() {
                assert(front[k] is Line);
            }
        }
    } else {
        assert(parts.take(parts.len() as int) =~= parts);
    }
}

/// Entries that touch their delimiters are on one line with them, or on lines of their own one step
/// deeper, with both delimiters on lines of theirs. Where there is nothing to cut at, they stay on one
/// line.
pub proof fn entries_part_from_both_delimiters_or_from_none(
    open: Layout,
    entries: Seq<Layout>,
    close: Layout,
    splits: int,
)
    requires
        entries.len() > 0,
        !trimmable(entries[0]),
        !trimmable(entries.last()),
    ensures
        splits != 0 ==> entries_layout(open, entries, close, splits) == group(
            concat(
                seq![
                    open,
                    indent(concat3(Layout::SoftLine, if_break(Layout::Nil, Layout::Nil), concat(entries))),
                    if_break(Layout::Nil, Layout::Nil),
                    Layout::SoftLine,
                    close,
                ],
            ),
        ),
        splits == 0 ==> entries_layout(open, entries, close, splits) == concat(
            seq![open, Layout::Nil, concat(entries), Layout::Nil, close],
        ),
{
    reveal(entries_layout);
}

} // verus!

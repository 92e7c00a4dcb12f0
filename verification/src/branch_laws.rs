//! When a conditional stands on one line, and how it stands on several.

use vstd::prelude::*;

use crate::conditional::{
    any_glued, branch_elements, branch_gap, broken_branches, conditional, conditional_parts, flat_branches, flat_elements,
};
use crate::context::LowerCtx;
use crate::flatten::lemma_gap_start;
use crate::gap::{gap_end, gap_of, lemma_gap_end};
use crate::ir::{forces_break, space, verbatim, Layout};
use crate::lower::{node, streamed};
use crate::prose::{reflowed, ReflowKind};
use crate::syntax::{SyntaxKind, Tree};

verus! {

/// On several lines, each branch of a conditional ends its line.
pub proof fn each_branch_ends_its_line(cx: LowerCtx, bs: Seq<usize>, n: int, reflow: bool, fuel: nat)
    requires
        0 <= n <= bs.len(),
    ensures
        ({
            let parts = broken_branches(cx, bs, n, reflow, fuel);
            &&& parts.len() == 2 * n
            &&& forall|i: int| 0 <= i < n ==> #[trigger] parts[2 * i + 1] == Layout::HardLine
        }),
    decreases n,
{
    if n > 0 {
        each_branch_ends_its_line(cx, bs, n - 1, reflow, fuel);
        let before = broken_branches(cx, bs, n - 1, reflow, fuel);
        let parts = broken_branches(cx, bs, n, reflow, fuel);
        assert forall|i: int| 0 <= i < n implies #[trigger] parts[2 * i + 1] == Layout::HardLine by {
            if i < n - 1 {
                assert(parts[2 * i + 1] == before[2 * i + 1]);
            }
        }
    }
}

/// On several lines, a branch is laid out as running text where the conditional stands in a
/// paragraph, and element by element elsewhere.
pub proof fn a_branch_is_laid_out_like_its_surroundings(cx: LowerCtx, bs: Seq<usize>, n: int, reflow: bool, fuel: nat)
    requires
        0 < n <= bs.len(),
    ensures
        ({
            let parts = broken_branches(cx, bs, n, reflow, fuel);
            let es = branch_elements(cx.t, bs[n - 1] as int);
            &&& reflow ==> parts[2 * n - 2] == reflowed(cx, es, ReflowKind::Prose, fuel).0
            &&& !reflow ==> parts[2 * n - 2] == streamed(cx, es, fuel)
            &&& parts.take(2 * n - 2) == broken_branches(cx, bs, n - 1, reflow, fuel)
        }),
{
    each_branch_ends_its_line(cx, bs, n - 1, reflow, fuel);
    let before = broken_branches(cx, bs, n - 1, reflow, fuel);
    let parts = broken_branches(cx, bs, n, reflow, fuel);
    assert(parts.take(2 * n - 2) =~= before);
}

/// What has a comment in it never stands on one line.
pub proof fn elements_with_a_comment_have_no_one_line_form(
    cx: LowerCtx,
    es: Seq<usize>,
    i: int,
    out: Seq<Layout>,
    j: int,
    fuel: nat,
)
    requires
        0 <= i <= j < es.len(),
        cx.t.tok_is(es[j] as int, SyntaxKind::Comment),
    ensures
        flat_elements(cx, es, i, out, fuel) is None,
    decreases j - i,
{
    let e = es[i] as int;
    if cx.t.gap(e) {
        lemma_gap_end(cx.t, es, i);
        lemma_gap_short(cx, es, i, j);
        let gap = gap_of(cx.t, es, i);
        if !(gap is Blank) {
            elements_with_a_comment_have_no_one_line_form(
                cx,
                es,
                gap_end(cx.t, es, i),
                out.push(verbatim(gap.flat())),
                j,
                fuel,
            );
        }
    } else if i < j && !cx.t.tok_is(e, SyntaxKind::Comment) {
        if cx.t.tok(e) {
            elements_with_a_comment_have_no_one_line_form(
                cx,
                es,
                i + 1,
                out.push(verbatim(cx.t.txt(e))),
                j,
                fuel,
            );
        } else if !forces_break(node(cx, e, fuel)) {
            elements_with_a_comment_have_no_one_line_form(cx, es, i + 1, out.push(node(cx, e, fuel)), j, fuel);
        }
    }
}

proof fn lemma_gap_short(cx: LowerCtx, es: Seq<usize>, i: int, j: int)
    requires
        0 <= i <= j < es.len(),
        !cx.t.gap(es[j] as int),
    ensures
        gap_end(cx.t, es, i) <= j,
    decreases j - i,
{
    if i < j {
        lemma_gap_short(cx, es, i + 1, j);
    }
}

/// An empty line between two branches keeps a conditional from standing on one line.
pub proof fn elements_with_an_empty_line_have_no_one_line_form(
    cx: LowerCtx,
    es: Seq<usize>,
    i: int,
    out: Seq<Layout>,
    fuel: nat,
)
    requires
        0 <= i < es.len(),
        cx.t.gap(es[i] as int),
        gap_of(cx.t, es, i) is Blank,
    ensures
        flat_elements(cx, es, i, out, fuel) is None,
{
}

/// A conditional with a comment in one of its branches never stands on one line.
pub proof fn a_comment_keeps_a_conditional_on_several_lines(
    cx: LowerCtx,
    bs: Seq<usize>,
    i: int,
    out: Seq<Layout>,
    b: int,
    j: int,
    fuel: nat,
)
    requires
        0 <= i <= b < bs.len(),
        0 <= j < branch_elements(cx.t, bs[b] as int).len(),
        cx.t.tok_is(branch_elements(cx.t, bs[b] as int)[j] as int, SyntaxKind::Comment),
    ensures
        flat_branches(cx, bs, i, out, fuel) is None,
    decreases b - i,
{
    if i == b {
        elements_with_a_comment_have_no_one_line_form(cx, branch_elements(cx.t, bs[b] as int), 0, out, j, fuel);
    } else {
        match flat_elements(cx, branch_elements(cx.t, bs[i] as int), 0, out, fuel) {
            Some(next) => a_comment_keeps_a_conditional_on_several_lines(cx, bs, i + 1, next.push(space()), b, j, fuel),
            None => {},
        }
    }
}

/// On one line, one space stands behind each branch.
pub proof fn one_space_stands_behind_each_branch(cx: LowerCtx, bs: Seq<usize>, i: int, out: Seq<Layout>, fuel: nat)
    requires
        0 <= i < bs.len(),
    ensures
        flat_branches(cx, bs, i, out, fuel) matches Some(parts) ==> parts.len() > 0 && parts.last() == space(),
    decreases bs.len() - i,
{
    match flat_elements(cx, branch_elements(cx.t, bs[i] as int), 0, out, fuel) {
        Some(next) => {
            if i + 1 < bs.len() {
                one_space_stands_behind_each_branch(cx, bs, i + 1, next.push(space()), fuel);
            } else {
                assert(flat_branches(cx, bs, i + 1, next.push(space()), fuel) == Some(next.push(space())));
            }
        },
        None => {},
    }
}

/// A branch that touches what follows it is left as it is: no space is put there.
pub proof fn touching_branches_are_left_as_they_are(cx: LowerCtx, n: int, fuel: nat)
    requires
        fuel > 0,
        conditional_parts(cx.t, n) is None || any_glued(cx.t, conditional_parts(cx.t, n)->0.branches) || !cx.wrapping(),
    ensures
        conditional(cx, n, fuel) == streamed(cx, cx.t.kids(n), (fuel - 1) as nat),
{
}

/// A branch that ends in white space is parted from the next one, and a branch that ends in neither
/// white space nor a comment touches it.
pub proof fn white_space_at_the_end_of_a_branch_parts_it(t: &Tree, n: int)
    requires
        t.kids(n).len() > 0,
    ensures
        t.gap(t.kids(n).last() as int) ==> !(branch_gap(t, n) is Glued),
        !t.gap(t.kids(n).last() as int) && !t.tok_is(t.kids(n).last() as int, SyntaxKind::Comment)
            ==> branch_gap(t, n) is Glued,
        t.tok_is(t.kids(n).last() as int, SyntaxKind::Comment) && !t.gap(t.kids(n).last() as int)
            ==> branch_gap(t, n) is Comment,
{
    lemma_gap_start(t, t.kids(n), t.kids(n).len() as int);
}

} // verus!

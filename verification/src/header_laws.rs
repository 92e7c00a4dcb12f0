//! The headers of environments.

use vstd::prelude::*;

use crate::begin::{argument_follows, begin_argument, header_parts, Matched};
use crate::context::LowerCtx;
use crate::flatten::is_arg;
use crate::gap::{gap_end, lemma_gap_end};
use crate::ir::{indent, Layout};
use crate::lower::{loose, node};
use crate::signatures::ArgSpec;
use crate::syntax::{SyntaxKind, Tree};

verus! {

/// What is known of the declared arguments once the elements from `i` up to `k` are behind.
pub open spec fn matched_at(t: &Tree, args: Seq<ArgSpec>, m: Matched, es: Seq<usize>, i: int, k: int) -> Matched
    decreases k - i,
{
    if k <= i {
        m
    } else if is_arg(t, es[i] as int) && !t.gap(es[i] as int) {
        matched_at(t, args, m.behind(t, args, es[i] as int), es, i + 1, k)
    } else {
        matched_at(t, args, m, es, i + 1, k)
    }
}

/// How many of the elements from `i` up to `k` are no white space.
pub open spec fn solid_count(t: &Tree, es: Seq<usize>, i: int, k: int) -> nat
    decreases k - i,
{
    if k <= i {
        0
    } else {
        solid_count(t, es, i + 1, k) + (if t.gap(es[i] as int) {
            0nat
        } else {
            1
        })
    }
}

/// No comment and no margin stands in the elements.
pub open spec fn without_comments(t: &Tree, es: Seq<usize>) -> bool {
    forall|k: int|
        0 <= k < es.len() ==> !t.tok_is(#[trigger] es[k] as int, SyntaxKind::Comment) && !t.tok_is(
            es[k] as int,
            SyntaxKind::DocMargin,
        )
}

proof fn lemma_past_gap(t: &Tree, args: Seq<ArgSpec>, m: Matched, es: Seq<usize>, i: int, g: int, k: int)
    requires
        0 <= i <= g <= k <= es.len(),
        g <= gap_end(t, es, i),
    ensures
        matched_at(t, args, m, es, i, k) == matched_at(t, args, m, es, g, k),
        solid_count(t, es, i, k) == solid_count(t, es, g, k),
    decreases g - i,
{
    if i < g {
        assert(t.gap(es[i] as int));
        lemma_past_gap(t, args, m, es, i + 1, g, k);
    }
}

/// The header of an environment without comments is its arguments and names directly behind one
/// another: white space between them is not part of it. It ends at white space that no
/// declared argument follows.
pub proof fn a_header_ends_where_no_argument_follows(
    cx: LowerCtx,
    args: Seq<ArgSpec>,
    aligned: bool,
    es: Seq<usize>,
    i: int,
    m: Matched,
    head: Seq<Layout>,
    fuel: nat,
)
    requires
        0 <= i <= es.len(),
        without_comments(cx.t, es),
    ensures
        ({
            let (pieces, end) = header_parts(cx, args, aligned, es, i, m, head, fuel);
            &&& i <= end <= es.len()
            &&& pieces.len() == head.len() + solid_count(cx.t, es, i, end)
            &&& head == pieces.take(head.len() as int)
            &&& end < es.len() ==> {
                &&& cx.t.gap(es[end] as int)
                &&& !argument_follows(
                    cx.t,
                    args,
                    matched_at(cx.t, args, m, es, i, end),
                    es,
                    gap_end(cx.t, es, end),
                )
            }
        }),
    decreases es.len() - i,
{
    let t = cx.t;
    if i < es.len() {
        let e = es[i] as int;
        lemma_gap_end(t, es, i);
        if t.gap(e) {
            let g = gap_end(t, es, i);
            if argument_follows(t, args, m, es, g) {
                a_header_ends_where_no_argument_follows(cx, args, aligned, es, g, m, head, fuel);
                let end = header_parts(cx, args, aligned, es, g, m, head, fuel).1;
                lemma_past_gap(t, args, m, es, i, g, end);
            } else {
                assert(head =~= head.take(head.len() as int));
            }
        } else if is_arg(t, e) {
            let longer = head.push(begin_argument(cx, args, aligned, m, e, fuel));
            let behind = m.behind(t, args, e);
            a_header_ends_where_no_argument_follows(cx, args, aligned, es, i + 1, behind, longer, fuel);
            let pieces = header_parts(cx, args, aligned, es, i + 1, behind, longer, fuel).0;
            assert(pieces.take(head.len() as int) =~= pieces.take(longer.len() as int).take(head.len() as int));
            assert(longer.take(head.len() as int) =~= head);
        } else {
            let piece = if t.tok(e) {
                loose(cx, e)
            } else {
                node(cx, e, fuel)
            };
            let longer = head.push(piece);
            a_header_ends_where_no_argument_follows(cx, args, aligned, es, i + 1, m, longer, fuel);
            let pieces = header_parts(cx, args, aligned, es, i + 1, m, longer, fuel).0;
            assert(pieces.take(head.len() as int) =~= pieces.take(longer.len() as int).take(head.len() as int));
            assert(longer.take(head.len() as int) =~= head);
        }
    } else {
        assert(head =~= head.take(head.len() as int));
    }
}

/// The lines of a declared argument are one step deeper than the header; those of any other are not.
pub proof fn a_declared_argument_is_indented(
    cx: LowerCtx,
    args: Seq<ArgSpec>,
    aligned: bool,
    m: Matched,
    e: int,
    fuel: nat,
)
    ensures
        m.spec_of(cx.t, args, e) is Some ==> exists|l: Layout|
            begin_argument(cx, args, aligned, m, e, fuel) == #[trigger] indent(l),
        m.spec_of(cx.t, args, e) is None ==> begin_argument(cx, args, aligned, m, e, fuel) == node(
            cx,
            e,
            fuel,
        ),
{
}

} // verus!

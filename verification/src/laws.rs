//! What holds of the lowering as a whole.

use vstd::prelude::*;

use crate::context::LowerCtx;
use crate::lower::streamed;
use crate::ir::{verbatim, Layout};
use crate::fidelity::one_element_has_its_source;
use crate::lower::{blocks, checked, document, loose, node, node_path, of_whole, overlapping, NodePath};
use crate::regions::{document_body_holds, meet};
use crate::syntax::{Span, SyntaxKind, Tree};

verus! {

/// A node whose layout the author has turned off is reproduced as it stands, whatever it is.
pub proof fn suppressed_nodes_are_reproduced(cx: LowerCtx, n: int, fuel: nat)
    requires
        0 <= n < cx.t.n(),
        cx.t.k(n) != SyntaxKind::Root,
        cx.off(n),
    ensures
        node(cx, n, fuel) == verbatim(cx.t.src(n)),
{
    reveal(node_path);
    reveal(checked);
    assert(cx.t.n() == cx.t.elems.len());
    assert(node_path(cx, n) == NodePath::Source);
    one_element_has_its_source(cx.t, n as usize);
}

/// Text that layout must not touch, and every other token that is no margin and no guard, is
/// written as it stands, but for the line feed that a closing frame supplies.
pub proof fn tokens_are_reproduced(cx: LowerCtx, e: int)
    requires
        cx.t.k(e) != SyntaxKind::DocMargin,
        cx.t.k(e) != SyntaxKind::Guard,
        !cx.absorbs(e),
    ensures
        loose(cx, e) == verbatim(cx.t.txt(e)),
{
}

/// A margin or a guard that is written stands in the first column.
pub proof fn margins_and_guards_keep_to_the_first_column(cx: LowerCtx, e: int)
    requires
        cx.t.k(e) == SyntaxKind::DocMargin || cx.t.k(e) == SyntaxKind::Guard,
    ensures
        loose(cx, e) is Nil || loose(cx, e) == Layout::ColumnZero(cx.t.txt(e)),
        loose(cx, e) is Nil <==> cx.in_doc_region && cx.t.k(e) == SyntaxKind::DocMargin,
{
}

/// A range lays out the blocks that it meets as they are laid out in the whole document: only
/// which blocks there are depends on it.
pub proof fn a_range_only_selects_blocks(cx: LowerCtx, n: int, fuel: nat)
    requires
        fuel > 0,
        cx.range is Some,
    ensures
        document(cx, n, fuel) == streamed(
            of_whole(cx),
            blocks(cx.t, cx.t.kids(n), cx.range->0, cx.t.kids(n).len() as int),
            (fuel - 1) as nat,
        ),
        of_whole(cx) == of_whole(of_whole(cx)),
{
}

proof fn lemma_overlapping(t: &Tree, es: Seq<usize>, range: Span, i: int)
    requires
        0 <= i <= es.len(),
    ensures
        forall|e: usize| #[trigger]
            overlapping(t, es, range, i).contains(e) ==> meet(range, t.elems@[e as int].span) && es.contains(e),
    decreases i,
{
    if i > 0 {
        lemma_overlapping(t, es, range, i - 1);
        let before = overlapping(t, es, range, i - 1);
        assert forall|e: usize| #[trigger] overlapping(t, es, range, i).contains(e) implies meet(
            range,
            t.elems@[e as int].span,
        ) && es.contains(e) by {
            if meet(range, t.elems@[es[i - 1] as int].span) {
                let all = before.push(es[i - 1]);
                let k = choose|k: int| 0 <= k < all.len() && all[k] == e;
                if k < before.len() {
                    assert(before[k] == e);
                    assert(before.contains(e));
                } else {
                    assert(es[i - 1] == e);
                }
            }
        }
    }
}

/// Every block that a range selects overlaps it.
pub proof fn selected_blocks_overlap_the_range(t: &Tree, es: Seq<usize>, range: Span, i: int)
    requires
        0 <= i <= es.len(),
    ensures
        forall|e: usize| #[trigger]
            blocks(t, es, range, i).contains(e) ==> meet(range, t.elems@[e as int].span),
    decreases i,
{
    if i > 0 {
        selected_blocks_overlap_the_range(t, es, range, i - 1);
        let e0 = es[i - 1] as int;
        let before = blocks(t, es, range, i - 1);
        let inner = overlapping(t, t.kids(e0), range, t.kids(e0).len() as int);
        lemma_overlapping(t, t.kids(e0), range, t.kids(e0).len() as int);
        assert forall|e: usize| #[trigger] blocks(t, es, range, i).contains(e) implies meet(
            range,
            t.elems@[e as int].span,
        ) by {
            if meet(range, t.elems@[e0].span) {
                if document_body_holds(t, e0, range) {
                    let all = before + inner;
                    let k = choose|k: int| 0 <= k < all.len() && all[k] == e;
                    if k < before.len() {
                        assert(before[k] == e);
                        assert(before.contains(e));
                    } else {
                        assert(inner[k - before.len()] == e);
                        assert(inner.contains(e));
                    }
                } else {
                    let all = before.push(es[i - 1]);
                    let k = choose|k: int| 0 <= k < all.len() && all[k] == e;
                    if k < before.len() {
                        assert(before[k] == e);
                        assert(before.contains(e));
                    }
                }
            }
        }
    }
}

} // verus!

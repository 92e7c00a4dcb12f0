//! Which part of a document is code.

use vstd::prelude::*;

use crate::regions::{covered, holds, lemma_covered_push, toggle_at, toggle_regions, toggled};
use crate::syntax::{ExplToggle, Span, Tree};

verus! {

/// Element `k` turns the syntax of code on.
pub open spec fn turns_on(t: &Tree, k: int) -> bool {
    toggle_at(t, k) == Some(ExplToggle::On)
}

/// Element `k` turns the syntax of code off.
pub open spec fn turns_off(t: &Tree, k: int) -> bool {
    toggle_at(t, k) == Some(ExplToggle::Off)
}

/// No element between `k` and `i` turns the syntax of code off.
pub open spec fn stays_on(t: &Tree, k: int, i: int) -> bool {
    forall|q: int| k < q < i ==> !#[trigger] turns_off(t, q)
}

/// Position `p` lies between element `k`, which turns the syntax of code on, and element `j`, the
/// next one that turns it off, or in one of the two.
pub open spec fn lies_between(t: &Tree, k: int, j: int, p: int) -> bool {
    &&& 0 <= k < j
    &&& turns_on(t, k)
    &&& turns_off(t, j)
    &&& stays_on(t, k, j)
    &&& t.from(k) <= p < t.to(j)
}

/// Element `k` turns the syntax of code on, and it is still on at `i`.
pub open spec fn still_on(t: &Tree, k: int, i: int) -> bool {
    0 <= k < i && turns_on(t, k) && stays_on(t, k, i)
}

proof fn lemma_toggles_in_order(t: &Tree, k: int, i: int)
    requires
        t.wf(),
        0 <= k < i < t.n(),
        turns_on(t, k),
        turns_on(t, i),
    ensures
        t.from(k) <= t.from(i),
{
    assert(t.tok(k) && t.tok(i));
    assert(t.end(k) == k + 1);
    assert(t.to(k) <= t.from(i));
    assert(t.from(k) < t.to(k));
}

proof fn lemma_toggled(t: &Tree, i: int, p: int)
    requires
        t.wf(),
        0 <= i <= t.n(),
    ensures
        ({
            let (open, closed) = toggled(t, i);
            &&& covered(closed, p) <==> exists|k: int, j: int| j < i && #[trigger] lies_between(t, k, j, p)
            &&& open is None ==> forall|k: int| !#[trigger] still_on(t, k, i)
            &&& open is Some ==> exists|k: int| #[trigger] still_on(t, k, i) && t.from(k) == open->0
            &&& open is Some ==> forall|k: int| #[trigger] still_on(t, k, i) ==> open->0 <= t.from(k)
        }),
    decreases i,
{
    if i > 0 {
        lemma_toggled(t, i - 1, p);
        let (was, before) = toggled(t, i - 1);
        let (open, closed) = toggled(t, i);
        assert forall|k: int| #[trigger] still_on(t, k, i) implies k == i - 1 || still_on(t, k, i - 1) by {
            if k < i - 1 {
                assert forall|q: int| k < q < i - 1 implies !#[trigger] turns_off(t, q) by {}
            }
        }
        if !turns_off(t, i - 1) {
            assert forall|k: int| #[trigger] still_on(t, k, i - 1) implies still_on(t, k, i) by {
                assert forall|q: int| k < q < i implies !#[trigger] turns_off(t, q) by {}
            }
            if turns_on(t, i - 1) {
                assert(still_on(t, i - 1, i));
            }
            if was is Some {
                let k = choose|k: int| #[trigger] still_on(t, k, i - 1) && t.from(k) == was->0;
                assert(still_on(t, k, i));
                if turns_on(t, i - 1) {
                    lemma_toggles_in_order(t, k, i - 1);
                }
            }
            assert forall|k: int, j: int| j < i && #[trigger] lies_between(t, k, j, p) implies j < i - 1 by {}
        } else {
            assert forall|k: int| !#[trigger] still_on(t, k, i) by {
                if still_on(t, k, i) {
                    assert(!turns_off(t, i - 1) || k == i - 1);
                }
            }
            assert forall|k: int| #[trigger] lies_between(t, k, i - 1, p) implies still_on(t, k, i - 1) by {}
            if was is Some {
                let s = Span { start: was->0 as usize, end: t.to(i - 1) as usize };
                lemma_covered_push(before, s, p);
                let k0 = choose|k: int| #[trigger] still_on(t, k, i - 1) && t.from(k) == was->0;
                assert(was->0 as usize == was->0);
                if holds(s, p) {
                    assert(lies_between(t, k0, i - 1, p));
                }
                if exists|k: int| #[trigger] lies_between(t, k, i - 1, p) {
                    assert(holds(s, p));
                }
            }
            if exists|k: int, j: int| j < i && #[trigger] lies_between(t, k, j, p) {
                let (k, j) = choose|k: int, j: int| j < i && #[trigger] lies_between(t, k, j, p);
                if j == i - 1 {
                    assert(still_on(t, k, i - 1));
                }
            }
        }
    }
}

/// A position is in code exactly where it lies from an element that turns the syntax of code on to
/// the next one that turns it off, both counted in, or behind one that turns it on and is followed
/// by none that turns it off.
pub proof fn code_runs_from_its_start_to_its_end(t: &Tree, p: int)
    requires
        t.wf(),
    ensures
        covered(toggle_regions(t), p) <==> (exists|k: int, j: int| j < t.n() && #[trigger] lies_between(t, k, j, p)) || (
        exists|k: int| #[trigger] still_on(t, k, t.n()) && t.from(k) <= p < t.to(0)),
{
    lemma_toggled(t, t.n(), p);
    let (open, closed) = toggled(t, t.n());
    if open is Some {
        let s = Span { start: open->0 as usize, end: t.to(0) as usize };
        lemma_covered_push(closed, s, p);
        let k0 = choose|k: int| #[trigger] still_on(t, k, t.n()) && t.from(k) == open->0;
        assert(open->0 as usize == open->0);
    }
}

} // verus!

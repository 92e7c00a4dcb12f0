//! The stretches of a document that are expl3 code.

use vstd::prelude::*;

use crate::syntax::{ExplToggle, Span, SyntaxKind, Tree};

verus! {

/// Whether position `p` lies in the span.
pub open spec fn holds(s: Span, p: int) -> bool {
    s.start <= p < s.end
}

/// Whether position `p` lies in one of the spans.
pub open spec fn covered(spans: Seq<Span>, p: int) -> bool {
    exists|i: int| 0 <= i < spans.len() && #[trigger] holds(spans[i], p)
}

/// The spans follow one another without overlapping.
pub open spec fn ordered(spans: Seq<Span>) -> bool {
    &&& forall|i: int| 0 <= i < spans.len() ==> (#[trigger] spans[i]).start <= spans[i].end
    &&& forall|i: int, j: int| 0 <= i < j < spans.len() ==> (#[trigger] spans[i]).end <= (#[trigger] spans[j]).start
}

/// Whether two spans share a position: the later start lies before the earlier end.
pub open spec fn meet(a: Span, b: Span) -> bool {
    a.start < b.end && b.start < a.end && a.start < a.end && b.start < b.end
}

/// Whether two spans share a position. Spans that merely touch share none, and an empty span
/// shares none with any.
pub fn ranges_overlap(a: Span, b: Span) -> (r: bool)
    ensures
        r == meet(a, b),
        r <==> exists|p: int| #[trigger] holds(a, p) && holds(b, p),
{
    proof {
        overlap_is_a_shared_position(a, b);
    }
    a.start < b.end && b.start < a.end && a.start < a.end && b.start < b.end
}

/// Two spans overlap exactly when some position lies in both, whichever comes first.
pub proof fn overlap_is_a_shared_position(a: Span, b: Span)
    ensures
        meet(a, b) <==> exists|p: int| #[trigger] holds(a, p) && holds(b, p),
        meet(a, b) == meet(b, a),
{
    if meet(a, b) {
        let p = if a.start < b.start { b.start as int } else { a.start as int };
        assert(holds(a, p) && holds(b, p));
    }
}

/// The span from `s` up to `e`, as a list: no span when there is nothing between them.
pub open spec fn piece(s: int, e: int) -> Seq<Span> {
    if s < e {
        seq![Span { start: s as usize, end: e as usize }]
    } else {
        Seq::empty()
    }
}

/// What is left of the positions from `s` up to `e` once the holes are cut out.
pub open spec fn cut(s: int, e: int, holes: Seq<Span>) -> Seq<Span>
    decreases holes.len(),
{
    if holes.len() == 0 {
        piece(s, e)
    } else {
        let hole = holes[0];
        let before = if hole.start < e { hole.start as int } else { e };
        let after = if hole.end > s { hole.end as int } else { s };
        piece(s, before) + cut(after, e, holes.drop_first())
    }
}

/// What is left of the regions once the holes are cut out, region by region.
pub open spec fn cut_all(regions: Seq<Span>, holes: Seq<Span>) -> Seq<Span>
    decreases regions.len(),
{
    if regions.len() == 0 {
        Seq::empty()
    } else {
        cut_all(regions.drop_last(), holes) + cut(regions.last().start as int, regions.last().end as int, holes)
    }
}

/// The regions without the holes.
pub open spec fn without(regions: Seq<Span>, holes: Seq<Span>) -> Seq<Span> {
    if holes.len() == 0 {
        regions
    } else {
        cut_all(regions, holes)
    }
}

/// The positions that the span from `s` up to `e` shares with the bodies.
pub open spec fn shared(s: int, e: int, bodies: Seq<Span>) -> Seq<Span>
    decreases bodies.len(),
{
    if bodies.len() == 0 {
        Seq::empty()
    } else {
        let body = bodies[0];
        piece(
            if s > body.start { s } else { body.start as int },
            if e < body.end { e } else { body.end as int },
        ) + shared(s, e, bodies.drop_first())
    }
}

/// The positions that the regions share with the bodies, region by region.
pub open spec fn within(regions: Seq<Span>, bodies: Seq<Span>) -> Seq<Span>
    decreases regions.len(),
{
    if regions.len() == 0 {
        Seq::empty()
    } else {
        within(regions.drop_last(), bodies) + shared(regions.last().start as int, regions.last().end as int, bodies)
    }
}

// ---- what the lists cover ------------------------------------------------------------------

proof fn lemma_covered_add(a: Seq<Span>, b: Seq<Span>, p: int)
    ensures
        covered(a + b, p) <==> covered(a, p) || covered(b, p),
{
    if covered(a + b, p) {
        let i = choose|i: int| 0 <= i < (a + b).len() && #[trigger] holds((a + b)[i], p);
        if i < a.len() {
            assert(holds(a[i], p));
        } else {
            assert(holds(b[i - a.len()], p));
        }
    }
    if covered(a, p) {
        let i = choose|i: int| 0 <= i < a.len() && #[trigger] holds(a[i], p);
        assert(holds((a + b)[i], p));
    }
    if covered(b, p) {
        let i = choose|i: int| 0 <= i < b.len() && #[trigger] holds(b[i], p);
        assert(holds((a + b)[a.len() + i], p));
    }
}

proof fn lemma_covered_first(holes: Seq<Span>, p: int)
    requires
        holes.len() > 0,
    ensures
        covered(holes, p) <==> holds(holes[0], p) || covered(holes.drop_first(), p),
{
    lemma_covered_add(seq![holes[0]], holes.drop_first(), p);
    assert(seq![holes[0]] + holes.drop_first() =~= holes);
    assert(holds(seq![holes[0]][0], p) == holds(holes[0], p));
    if covered(seq![holes[0]], p) {
        let i = choose|i: int| 0 <= i < 1 && #[trigger] holds(seq![holes[0]][i], p);
        assert(i == 0);
    }
}

proof fn lemma_piece(s: int, e: int, p: int)
    requires
        0 <= s <= usize::MAX,
        0 <= e <= usize::MAX,
    ensures
        covered(piece(s, e), p) <==> s <= p < e,
        ordered(piece(s, e)),
{
    if s < e {
        assert(holds(piece(s, e)[0], p) == (s <= p < e));
        if covered(piece(s, e), p) {
            let i = choose|i: int| 0 <= i < piece(s, e).len() && #[trigger] holds(piece(s, e)[i], p);
            assert(i == 0);
        }
    } else {
        assert(!covered(piece(s, e), p));
    }
}

/// Cutting holes out of a span leaves exactly its positions outside the holes.
proof fn lemma_cut_covers(s: int, e: int, holes: Seq<Span>, p: int)
    requires
        0 <= s <= usize::MAX,
        0 <= e <= usize::MAX,
        ordered(holes),
    ensures
        covered(cut(s, e, holes), p) <==> s <= p < e && !covered(holes, p),
    decreases holes.len(),
{
    if holes.len() == 0 {
        lemma_piece(s, e, p);
        assert(!covered(holes, p));
    } else {
        let hole = holes[0];
        let rest = holes.drop_first();
        let before = if hole.start < e { hole.start as int } else { e };
        let after = if hole.end > s { hole.end as int } else { s };
        lemma_piece(s, before, p);
        lemma_cut_covers(after, e, rest, p);
        lemma_covered_add(piece(s, before), cut(after, e, rest), p);
        lemma_covered_first(holes, p);
        assert(hole.start <= hole.end);
        if covered(rest, p) {
            let i = choose|i: int| 0 <= i < rest.len() && #[trigger] holds(rest[i], p);
            assert(rest[i] == holes[i + 1]);
            assert(holes[0].end <= holes[i + 1].start);
        }
    }
}

/// The pieces that cutting leaves stand in order, inside the span.
proof fn lemma_cut_ordered(s: int, e: int, holes: Seq<Span>)
    requires
        0 <= s <= usize::MAX,
        0 <= e <= usize::MAX,
        ordered(holes),
    ensures
        ordered(cut(s, e, holes)),
        forall|i: int|
            0 <= i < cut(s, e, holes).len() ==> s <= (#[trigger] cut(s, e, holes)[i]).start < cut(s, e, holes)[i].end <= e,
    decreases holes.len(),
{
    if holes.len() > 0 {
        let hole = holes[0];
        let rest = holes.drop_first();
        let before = if hole.start < e { hole.start as int } else { e };
        let after = if hole.end > s { hole.end as int } else { s };
        assert(ordered(rest));
        lemma_cut_ordered(after, e, rest);
        let a = piece(s, before);
        let b = cut(after, e, rest);
        assert(hole.start <= hole.end);
        assert forall|i: int, j: int| 0 <= i < j < (a + b).len() implies (#[trigger] (a + b)[i]).end <= (#[trigger] (a
            + b)[j]).start by {
            if i >= a.len() {
                assert(b[i - a.len()].end <= b[j - a.len()].start);
            } else {
                assert(b[j - a.len()].start >= after);
            }
        }
        assert forall|i: int| 0 <= i < (a + b).len() implies s <= (#[trigger] (a + b)[i]).start < (a + b)[i].end <= e by {
            if i >= a.len() {
                assert(b[i - a.len()].start >= after);
            }
        }
    }
}

/// Cutting holes out of regions leaves exactly the positions of the regions outside the holes,
/// as spans that stand in order.
pub proof fn subtraction_leaves_the_rest(regions: Seq<Span>, holes: Seq<Span>)
    requires
        ordered(regions),
        ordered(holes),
    ensures
        ordered(without(regions, holes)),
        forall|p: int| #[trigger] covered(without(regions, holes), p) <==> covered(regions, p) && !covered(holes, p),
{
    if holes.len() == 0 {
        assert forall|p: int| #[trigger] covered(without(regions, holes), p) <==> covered(regions, p) && !covered(
            holes,
            p,
        ) by {
            assert(!covered(holes, p));
        }
    } else {
        lemma_cut_all(regions, holes);
    }
}

proof fn lemma_cut_all(regions: Seq<Span>, holes: Seq<Span>)
    requires
        ordered(regions),
        ordered(holes),
    ensures
        ordered(cut_all(regions, holes)),
        forall|i: int|
            0 <= i < cut_all(regions, holes).len() ==> (#[trigger] cut_all(regions, holes)[i]).end <= regions.last().end,
        forall|p: int| #[trigger] covered(cut_all(regions, holes), p) <==> covered(regions, p) && !covered(holes, p),
    decreases regions.len(),
{
    if regions.len() == 0 {
        assert forall|p: int| #[trigger] covered(cut_all(regions, holes), p) <==> covered(regions, p) && !covered(
            holes,
            p,
        ) by {
            assert(!covered(regions, p));
            assert(!covered(cut_all(regions, holes), p));
        }
    } else {
        let init = regions.drop_last();
        let last = regions.last();
        let (s, e) = (last.start as int, last.end as int);
        assert(regions[regions.len() - 1] == last);
        assert(ordered(init));
        lemma_cut_all(init, holes);
        lemma_cut_ordered(s, e, holes);
        let a = cut_all(init, holes);
        let b = cut(s, e, holes);
        assert forall|i: int, j: int| 0 <= i < j < (a + b).len() implies (#[trigger] (a + b)[i]).end <= (#[trigger] (a
            + b)[j]).start by {
            if i >= a.len() {
                assert(b[i - a.len()].end <= b[j - a.len()].start);
            } else if j < a.len() {
                assert(a[i].end <= a[j].start);
            } else {
                assert(a[i].end <= init.last().end);
                assert(init.len() > 0) by {
                    if init.len() == 0 {
                        assert(a.len() == 0);
                    }
                }
                assert(regions[init.len() - 1].end <= regions[regions.len() - 1].start);
                assert(b[j - a.len()].start >= s);
            }
        }
        assert forall|i: int| 0 <= i < (a + b).len() implies (#[trigger] (a + b)[i]).end <= last.end by {
            if i < a.len() {
                assert(a[i].end <= init.last().end);
                assert(init.len() > 0) by {
                    if init.len() == 0 {
                        assert(a.len() == 0);
                    }
                }
                assert(regions[init.len() - 1].end <= regions[regions.len() - 1].start);
            } else {
                assert(b[i - a.len()].end <= e);
            }
        }
        assert forall|i: int| 0 <= i < (a + b).len() implies (#[trigger] (a + b)[i]).start <= (a + b)[i].end by {
            if i < a.len() {
                assert(a[i].start <= a[i].end);
            } else {
                assert(b[i - a.len()].start < b[i - a.len()].end);
            }
        }
        assert forall|p: int| #[trigger] covered(a + b, p) <==> covered(regions, p) && !covered(holes, p) by {
            lemma_covered_add(a, b, p);
            lemma_cut_covers(s, e, holes, p);
            lemma_covered_add(init, seq![last], p);
            assert(init + seq![last] =~= regions);
            assert(covered(seq![last], p) <==> s <= p < e) by {
                assert(holds(seq![last][0], p) == (s <= p < e));
                if covered(seq![last], p) {
                    let i = choose|i: int| 0 <= i < 1 && #[trigger] holds(seq![last][i], p);
                    assert(i == 0);
                }
            }
            assert(covered(a, p) <==> covered(init, p) && !covered(holes, p));
        }
    }
}

proof fn lemma_shared(s: int, e: int, bodies: Seq<Span>)
    requires
        0 <= s <= usize::MAX,
        0 <= e <= usize::MAX,
        ordered(bodies),
    ensures
        ordered(shared(s, e, bodies)),
        forall|i: int|
            0 <= i < shared(s, e, bodies).len() ==> s <= (#[trigger] shared(s, e, bodies)[i]).start && shared(s, e, bodies)[i].end
                <= e && bodies[0].start <= shared(s, e, bodies)[i].start,
        forall|p: int| #[trigger] covered(shared(s, e, bodies), p) <==> s <= p < e && covered(bodies, p),
    decreases bodies.len(),
{
    if bodies.len() == 0 {
        assert forall|p: int| #[trigger] covered(shared(s, e, bodies), p) <==> s <= p < e && covered(bodies, p) by {
            assert(!covered(bodies, p));
            assert(!covered(shared(s, e, bodies), p));
        }
    } else {
        let body = bodies[0];
        let rest = bodies.drop_first();
        assert(ordered(rest));
        lemma_shared(s, e, rest);
        let lo = if s > body.start { s } else { body.start as int };
        let hi = if e < body.end { e } else { body.end as int };
        let a = piece(lo, hi);
        let b = shared(s, e, rest);
        assert forall|i: int, j: int| 0 <= i < j < (a + b).len() implies (#[trigger] (a + b)[i]).end <= (#[trigger] (a
            + b)[j]).start by {
            if i >= a.len() {
                assert(b[i - a.len()].end <= b[j - a.len()].start);
            } else {
                assert(b[j - a.len()].start >= rest[0].start);
                assert(rest.len() > 0) by {
                    if rest.len() == 0 {
                        assert(b.len() == 0);
                    }
                }
                assert(bodies[0].end <= bodies[1].start);
            }
        }
        assert forall|i: int| 0 <= i < (a + b).len() implies s <= (#[trigger] (a + b)[i]).start && (a + b)[i].end <= e
            && body.start <= (a + b)[i].start && (a + b)[i].start <= (a + b)[i].end by {
            if i >= a.len() {
                assert(b[i - a.len()].start >= rest[0].start);
                assert(rest.len() > 0) by {
                    if rest.len() == 0 {
                        assert(b.len() == 0);
                    }
                }
                assert(bodies[0].end <= bodies[1].start);
                assert(bodies[0].start <= bodies[0].end);
                assert(b[i - a.len()].start <= b[i - a.len()].end);
            }
        }
        assert forall|p: int| #[trigger] covered(a + b, p) <==> s <= p < e && covered(bodies, p) by {
            lemma_covered_add(a, b, p);
            lemma_piece(lo, hi, p);
            lemma_covered_first(bodies, p);
            assert(covered(b, p) <==> s <= p < e && covered(rest, p));
        }
    }
}

/// Whether none of the spans is empty, and all of them lie between `lo` and `hi`.
pub open spec fn solid(spans: Seq<Span>, lo: int, hi: int) -> bool {
    forall|k: int| 0 <= k < spans.len() ==> lo <= (#[trigger] spans[k]).start < spans[k].end <= hi
}

proof fn lemma_solid_add(a: Seq<Span>, b: Seq<Span>, lo: int, hi: int)
    requires
        solid(a, lo, hi),
        solid(b, lo, hi),
    ensures
        solid(a + b, lo, hi),
{
    assert forall|k: int| 0 <= k < (a + b).len() implies lo <= (#[trigger] (a + b)[k]).start < (a + b)[k].end <= hi by {
        if k < a.len() {
            assert(lo <= a[k].start < a[k].end <= hi);
        } else {
            assert(lo <= b[k - a.len()].start < b[k - a.len()].end <= hi);
        }
    }
}

/// Cutting holes out leaves no empty span, and none that reaches further.
proof fn lemma_without_solid(regions: Seq<Span>, holes: Seq<Span>, lo: int, hi: int)
    requires
        solid(regions, lo, hi),
        ordered(holes),
    ensures
        solid(without(regions, holes), lo, hi),
        solid(cut_all(regions, holes), lo, hi),
    decreases regions.len(),
{
    if regions.len() > 0 {
        let last = regions[regions.len() - 1];
        let (s, e) = (last.start as int, last.end as int);
        assert(solid(regions.drop_last(), lo, hi)) by {
            assert forall|k: int| 0 <= k < regions.len() - 1 implies lo <= (#[trigger] regions.drop_last()[k]).start
                < regions.drop_last()[k].end <= hi by {
                assert(lo <= regions[k].start < regions[k].end <= hi);
            }
        }
        lemma_without_solid(regions.drop_last(), holes, lo, hi);
        lemma_cut_ordered(s, e, holes);
        assert(lo <= s < e <= hi);
        lemma_solid_add(cut_all(regions.drop_last(), holes), cut(s, e, holes), lo, hi);
    }
}

proof fn lemma_shared_solid(s: int, e: int, bodies: Seq<Span>, lo: int, hi: int)
    requires
        0 <= lo <= s,
        e <= hi <= usize::MAX,
    ensures
        solid(shared(s, e, bodies), lo, hi),
    decreases bodies.len(),
{
    if bodies.len() > 0 {
        let body = bodies[0];
        lemma_shared_solid(s, e, bodies.drop_first(), lo, hi);
        let a = piece(
            if s > body.start { s } else { body.start as int },
            if e < body.end { e } else { body.end as int },
        );
        lemma_solid_add(a, shared(s, e, bodies.drop_first()), lo, hi);
    }
}

/// What regions share with bodies holds no empty span, and none that reaches further.
proof fn lemma_within_solid(regions: Seq<Span>, bodies: Seq<Span>, lo: int, hi: int)
    requires
        solid(regions, lo, hi),
        0 <= lo,
        hi <= usize::MAX,
    ensures
        solid(within(regions, bodies), lo, hi),
    decreases regions.len(),
{
    if regions.len() > 0 {
        let last = regions[regions.len() - 1];
        let (s, e) = (last.start as int, last.end as int);
        assert(solid(regions.drop_last(), lo, hi)) by {
            assert forall|k: int| 0 <= k < regions.len() - 1 implies lo <= (#[trigger] regions.drop_last()[k]).start
                < regions.drop_last()[k].end <= hi by {
                assert(lo <= regions[k].start < regions[k].end <= hi);
            }
        }
        lemma_within_solid(regions.drop_last(), bodies, lo, hi);
        lemma_shared_solid(s, e, bodies, lo, hi);
        lemma_solid_add(within(regions.drop_last(), bodies), shared(s, e, bodies), lo, hi);
    }
}

/// Intersecting regions with bodies leaves exactly the positions that lie in both, as spans that
/// stand in order.
pub proof fn intersection_is_what_both_cover(regions: Seq<Span>, bodies: Seq<Span>)
    requires
        ordered(regions),
        ordered(bodies),
    ensures
        ordered(within(regions, bodies)),
        forall|i: int|
            0 <= i < within(regions, bodies).len() ==> (#[trigger] within(regions, bodies)[i]).end <= regions.last().end,
        forall|p: int| #[trigger] covered(within(regions, bodies), p) <==> covered(regions, p) && covered(bodies, p),
    decreases regions.len(),
{
    if regions.len() == 0 {
        assert forall|p: int| #[trigger] covered(within(regions, bodies), p) <==> covered(regions, p) && covered(
            bodies,
            p,
        ) by {
            assert(!covered(regions, p));
            assert(!covered(within(regions, bodies), p));
        }
    } else {
        let init = regions.drop_last();
        let last = regions.last();
        let (s, e) = (last.start as int, last.end as int);
        assert(regions[regions.len() - 1] == last);
        assert(ordered(init));
        intersection_is_what_both_cover(init, bodies);
        lemma_shared(s, e, bodies);
        let a = within(init, bodies);
        let b = shared(s, e, bodies);
        assert forall|i: int| 0 <= i < a.len() implies (#[trigger] a[i]).end <= s by {
            assert(a[i].end <= init.last().end);
            assert(init.len() > 0) by {
                if init.len() == 0 {
                    assert(a.len() == 0);
                }
            }
            assert(regions[init.len() - 1].end <= regions[regions.len() - 1].start);
        }
        assert forall|i: int, j: int| 0 <= i < j < (a + b).len() implies (#[trigger] (a + b)[i]).end <= (#[trigger] (a
            + b)[j]).start by {
            if i >= a.len() {
                assert(b[i - a.len()].end <= b[j - a.len()].start);
            } else if j < a.len() {
                assert(a[i].end <= a[j].start);
            } else {
                assert(a[i].end <= s);
                assert(b[j - a.len()].start >= s);
            }
        }
        assert forall|i: int| 0 <= i < (a + b).len() implies (#[trigger] (a + b)[i]).end <= last.end && (a + b)[i].start
            <= (a + b)[i].end by {
            if i < a.len() {
                assert(a[i].end <= s);
                assert(a[i].start <= a[i].end);
            } else {
                assert(b[i - a.len()].end <= e);
                assert(b[i - a.len()].start <= b[i - a.len()].end);
            }
        }
        assert forall|p: int| #[trigger] covered(a + b, p) <==> covered(regions, p) && covered(bodies, p) by {
            lemma_covered_add(a, b, p);
            lemma_covered_add(init, seq![last], p);
            assert(init + seq![last] =~= regions);
            assert(covered(seq![last], p) <==> s <= p < e) by {
                assert(holds(seq![last][0], p) == (s <= p < e));
                if covered(seq![last], p) {
                    let i = choose|i: int| 0 <= i < 1 && #[trigger] holds(seq![last][i], p);
                    assert(i == 0);
                }
            }
            assert(covered(a, p) <==> covered(init, p) && covered(bodies, p));
            assert(covered(b, p) <==> s <= p < e && covered(bodies, p));
        }
    }
}

// ---- cutting and intersecting --------------------------------------------------------------

proof fn lemma_cut_empty(s: int, e: int, holes: Seq<Span>)
    requires
        s >= e,
    ensures
        cut(s, e, holes) == Seq::<Span>::empty(),
    decreases holes.len(),
{
    if holes.len() > 0 {
        let hole = holes[0];
        let after = if hole.end > s { hole.end as int } else { s };
        lemma_cut_empty(after, e, holes.drop_first());
        assert(cut(s, e, holes) =~= Seq::<Span>::empty());
    } else {
        assert(cut(s, e, holes) =~= Seq::<Span>::empty());
    }
}

/// Holes that end at or before `s` cut nothing off.
proof fn lemma_cut_skip(s: int, e: int, holes: Seq<Span>, h: int)
    requires
        0 <= h <= holes.len(),
        ordered(holes),
        forall|k: int| 0 <= k < h ==> (#[trigger] holes[k]).end <= s,
    ensures
        cut(s, e, holes) == cut(s, e, holes.skip(h)),
    decreases h,
{
    if h > 0 {
        lemma_cut_skip(s, e, holes, h - 1);
        let rest = holes.skip(h - 1);
        assert(rest[0] == holes[h - 1]);
        assert(rest[0].start <= rest[0].end);
        assert(rest.drop_first() =~= holes.skip(h));
        assert(piece(s, if rest[0].start < e { rest[0].start as int } else { e }) =~= Seq::<Span>::empty());
        assert(cut(s, e, rest) =~= cut(s, e, rest.drop_first()));
    } else {
        assert(holes.skip(0) =~= holes);
    }
}

/// Holes that start at or behind `e` cut nothing off.
proof fn lemma_cut_beyond(s: int, e: int, holes: Seq<Span>)
    requires
        holes.len() > 0,
        ordered(holes),
        holes[0].start >= e,
    ensures
        cut(s, e, holes) == piece(s, e),
{
    let after = if holes[0].end > s { holes[0].end as int } else { s };
    assert(holes[0].start <= holes[0].end);
    lemma_cut_empty(after, e, holes.drop_first());
    assert(cut(s, e, holes) =~= piece(s, e));
}

/// The regions without the holes. Both lists stand in order, and so does the result.
fn subtract_holes(regions: Vec<Span>, holes: &Vec<Span>) -> (out: Vec<Span>)
    requires
        ordered(regions@),
        ordered(holes@),
    ensures
        out@ == without(regions@, holes@),
{
    if holes.len() == 0 {
        return regions;
    }
    let mut out: Vec<Span> = Vec::new();
    let mut h: usize = 0;
    let mut i: usize = 0;
    while i < regions.len()
        invariant
            ordered(regions@),
            ordered(holes@),
            i <= regions.len(),
            h <= holes.len(),
            out@ == cut_all(regions@.take(i as int), holes@),
            forall|k: int, j: int| 0 <= k < h && i <= j < regions.len() ==> (#[trigger] holes@[k]).end <= (#[trigger] regions@[j]).start,
        decreases regions.len() - i,
    {
        let region = regions[i];
        let ghost done = out@;
        let ghost all = cut(region.start as int, region.end as int, holes@);
        let mut cursor: usize = region.start;
        proof {
            lemma_cut_skip(cursor as int, region.end as int, holes@, h as int);
            assert(done + all =~= out@ + cut(cursor as int, region.end as int, holes@.skip(h as int)));
            assert(region == regions@[i as int]);
        }
        while h < holes.len()
            invariant_except_break
                cursor <= region.end,
                out@ + cut(cursor as int, region.end as int, holes@.skip(h as int)) == done + all,
            invariant
                ordered(holes@),
                h <= holes.len(),
                region.start <= cursor,
                region.start <= region.end,
                forall|k: int| 0 <= k < h ==> (#[trigger] holes@[k]).end <= cursor,
                forall|k: int| 0 <= k < h ==> (#[trigger] holes@[k]).end <= region.end,
            ensures
                cursor <= region.end || h < holes.len(),
                out@ + piece(cursor as int, region.end as int) == done + all,
            decreases holes.len() - h,
        {
            let hole = holes[h];
            let ghost rest = holes@.skip(h as int);
            proof {
                assert(rest[0] == hole);
                assert(rest.drop_first() =~= holes@.skip(h as int + 1));
                assert(hole.start <= hole.end);
                assert(ordered(rest));
            }
            if hole.end <= cursor {
                proof {
                    lemma_cut_skip(cursor as int, region.end as int, rest, 1);
                    assert(rest.skip(1) =~= holes@.skip(h as int + 1));
                }
                h = h + 1;
                continue;
            }
            if hole.start >= region.end {
                proof {
                    lemma_cut_beyond(cursor as int, region.end as int, rest);
                }
                break;
            }
            let ghost before = out@;
            if hole.start > cursor {
                out.push(Span { start: cursor, end: hole.start });
            }
            proof {
                assert(out@ =~= before + piece(cursor as int, hole.start as int));
                assert(out@ + cut(hole.end as int, region.end as int, rest.drop_first()) =~= before + cut(
                    cursor as int,
                    region.end as int,
                    rest,
                ));
            }
            cursor = hole.end;
            if cursor >= region.end {
                proof {
                    lemma_cut_empty(cursor as int, region.end as int, rest.drop_first());
                    assert(out@ + piece(cursor as int, region.end as int) =~= out@ + cut(
                        cursor as int,
                        region.end as int,
                        rest.drop_first(),
                    ));
                }
                break;
            }
            h = h + 1;
        }
        proof {
            if h == holes.len() {
                assert(holes@.skip(h as int) =~= Seq::<Span>::empty());
            }
        }
        let ghost before = out@;
        if cursor < region.end {
            out.push(Span { start: cursor, end: region.end });
        }
        proof {
            assert(out@ =~= before + piece(cursor as int, region.end as int));
            assert(regions@.take(i as int + 1).drop_last() =~= regions@.take(i as int));
            assert forall|k: int, j: int| 0 <= k < h && i < j < regions.len() implies (#[trigger] holes@[k]).end <= (
            #[trigger] regions@[j]).start by {
                assert(regions@[i as int].end <= regions@[j].start);
            }
        }
        i = i + 1;
    }
    assert(regions@.take(i as int) =~= regions@);
    out
}

proof fn lemma_shared_skip(s: int, e: int, bodies: Seq<Span>, b: int)
    requires
        0 <= b <= bodies.len(),
        ordered(bodies),
        forall|k: int| 0 <= k < b ==> (#[trigger] bodies[k]).end <= s,
    ensures
        shared(s, e, bodies) == shared(s, e, bodies.skip(b)),
    decreases b,
{
    if b > 0 {
        lemma_shared_skip(s, e, bodies, b - 1);
        let rest = bodies.skip(b - 1);
        assert(rest[0] == bodies[b - 1]);
        assert(rest.drop_first() =~= bodies.skip(b));
        assert(shared(s, e, rest) =~= shared(s, e, rest.drop_first()));
    } else {
        assert(bodies.skip(0) =~= bodies);
    }
}

proof fn lemma_shared_beyond(s: int, e: int, bodies: Seq<Span>)
    requires
        ordered(bodies),
        bodies.len() > 0 ==> bodies[0].start >= e,
    ensures
        shared(s, e, bodies) == Seq::<Span>::empty(),
    decreases bodies.len(),
{
    if bodies.len() > 0 {
        let rest = bodies.drop_first();
        if rest.len() > 0 {
            assert(bodies[0].start <= bodies[0].end);
            assert(bodies[0].end <= bodies[1].start);
        }
        assert(ordered(rest));
        lemma_shared_beyond(s, e, rest);
        assert(shared(s, e, bodies) =~= Seq::<Span>::empty());
    }
}

/// The positions that the regions share with the bodies.
fn intersect(regions: Vec<Span>, bodies: &Vec<Span>) -> (out: Vec<Span>)
    requires
        ordered(regions@),
        ordered(bodies@),
    ensures
        out@ == within(regions@, bodies@),
{
    let mut out: Vec<Span> = Vec::new();
    let mut b: usize = 0;
    let mut i: usize = 0;
    while i < regions.len()
        invariant
            ordered(regions@),
            ordered(bodies@),
            i <= regions.len(),
            b <= bodies.len(),
            out@ == within(regions@.take(i as int), bodies@),
            forall|k: int, j: int| 0 <= k < b && i <= j < regions.len() ==> (#[trigger] bodies@[k]).end <= (#[trigger] regions@[j]).start,
        decreases regions.len() - i,
    {
        let region = regions[i];
        let ghost done = out@;
        let ghost all = shared(region.start as int, region.end as int, bodies@);
        proof {
            assert(region == regions@[i as int]);
            lemma_shared_skip(region.start as int, region.end as int, bodies@, b as int);
            assert(done + all =~= out@ + shared(region.start as int, region.end as int, bodies@.skip(b as int)));
        }
        while b < bodies.len()
            invariant_except_break
                out@ + shared(region.start as int, region.end as int, bodies@.skip(b as int)) == done + all,
            invariant
                ordered(bodies@),
                b <= bodies.len(),
                region.start <= region.end,
                forall|k: int| 0 <= k < b ==> (#[trigger] bodies@[k]).end <= region.end,
            ensures
                out@ == done + all,
            decreases bodies.len() - b,
        {
            let body = bodies[b];
            let ghost rest = bodies@.skip(b as int);
            proof {
                assert(rest[0] == body);
                assert(ordered(rest));
                assert(rest.drop_first() =~= bodies@.skip(b as int + 1));
            }
            if body.end <= region.start {
                assert(shared(region.start as int, region.end as int, rest) =~= shared(
                    region.start as int,
                    region.end as int,
                    rest.drop_first(),
                ));
                b = b + 1;
                continue;
            }
            if body.start >= region.end {
                proof {
                    lemma_shared_beyond(region.start as int, region.end as int, rest);
                    assert(out@ =~= done + all);
                }
                break;
            }
            let start: usize = if region.start > body.start {
                region.start
            } else {
                body.start
            };
            let end: usize = if region.end < body.end {
                region.end
            } else {
                body.end
            };
            let ghost before = out@;
            if start < end {
                out.push(Span { start, end });
            }
            proof {
                assert(out@ =~= before + piece(start as int, end as int));
                assert(out@ + shared(region.start as int, region.end as int, rest.drop_first()) =~= before + shared(
                    region.start as int,
                    region.end as int,
                    rest,
                ));
            }
            if body.end >= region.end {
                proof {
                    if rest.drop_first().len() > 0 {
                        assert(rest[0].end <= rest[1].start);
                        assert(rest.drop_first()[0] == rest[1]);
                    }
                    assert(ordered(rest.drop_first()));
                    lemma_shared_beyond(region.start as int, region.end as int, rest.drop_first());
                    assert(out@ =~= done + all);
                }
                break;
            }
            b = b + 1;
        }
        proof {
            if b == bodies.len() {
                assert(bodies@.skip(b as int) =~= Seq::<Span>::empty());
                assert(out@ =~= done + all);
            }
            assert(regions@.take(i as int + 1).drop_last() =~= regions@.take(i as int));
            assert forall|k: int, j: int| 0 <= k < b && i < j < regions.len() implies (#[trigger] bodies@[k]).end <= (
            #[trigger] regions@[j]).start by {
                assert(regions@[i as int].end <= regions@[j].start);
            }
        }
        i = i + 1;
    }
    assert(regions@.take(i as int) =~= regions@);
    out
}

// ---- toggles -------------------------------------------------------------------------------

/// The nearest sibling before the element that is not collapsible white space.
pub open spec fn content_before(t: &Tree, i: int) -> Option<usize>
    decreases i,
{
    match t.prev_sib(i) {
        Some(j) => if j < i && t.gap(j as int) {
            content_before(t, j as int)
        } else {
            Some(j)
        },
        None => None,
    }
}

/// The nearest sibling before the element that is not collapsible white space.
pub(crate) fn prev_nontrivia_element(t: &Tree, i: usize) -> (r: Option<usize>)
    requires
        t.wf(),
        i < t.n(),
    ensures
        r == content_before(t, i as int),
        r matches Some(j) ==> j < i,
{
    let mut at: usize = i;
    loop
        invariant
            t.wf(),
            at <= i < t.n(),
            content_before(t, at as int) == content_before(t, i as int),
        decreases at,
    {
        match t.prev_sibling(at) {
            None => {
                return None;
            },
            Some(j) => {
                if !t.is_gap(j) {
                    return Some(j);
                }
                at = j;
            },
        }
    }
}

/// Whether a node stands in a group or an optional argument, at any depth.
pub open spec fn in_argument(t: &Tree, i: int) -> bool
    decreases i,
{
    if 0 < i && 0 <= t.up(i) < i {
        let kind = t.k(t.up(i));
        if kind == SyntaxKind::Group || kind == SyntaxKind::Optional {
            true
        } else if kind == SyntaxKind::Root {
            false
        } else {
            in_argument(t, t.up(i))
        }
    } else {
        false
    }
}

fn is_in_argument(t: &Tree, i: usize) -> (r: bool)
    requires
        t.wf(),
        i < t.n(),
    ensures
        r == in_argument(t, i as int),
{
    let mut at: usize = i;
    while at > 0
        invariant
            t.wf(),
            at <= i < t.n(),
            in_argument(t, at as int) == in_argument(t, i as int),
        decreases at,
    {
        let p: usize = t.parent(at);
        assert(t.up(at as int) < at);
        let kind = t.kind(p);
        if kind == SyntaxKind::Group || kind == SyntaxKind::Optional {
            return true;
        }
        if kind == SyntaxKind::Root {
            return false;
        }
        at = p;
    }
    false
}

/// Whether a command is the control sequence that the command before it defines.
pub open spec fn is_defined(t: &Tree, command: int) -> bool {
    match content_before(t, command) {
        Some(j) => t.node_is(j as int, SyntaxKind::Command) && t.elems@[j as int].facts.name is Some && (
        t.elems@[j as int].facts.defines_next || t.named(j as int, "let"@) || t.named(j as int, "futurelet"@)),
        None => false,
    }
}

/// Whether a control word is executed where it stands: it does not stand in an argument, where
/// it would be stored, and it is not the control sequence that a definition defines.
pub open spec fn top_level(t: &Tree, token: int) -> bool {
    let command = t.up(token);
    t.k(command) != SyntaxKind::Command || (!in_argument(t, command) && !is_defined(t, command))
}

/// Whether a control word is executed where it stands.
fn toggle_is_top_level(t: &Tree, token: usize) -> (r: bool)
    requires
        t.wf(),
        0 < token < t.n(),
    ensures
        r == top_level(t, token as int),
{
    let command: usize = t.parent(token);
    assert(t.up(token as int) < token);
    if t.kind(command) != SyntaxKind::Command {
        return true;
    }
    if is_in_argument(t, command) {
        return false;
    }
    match prev_nontrivia_element(t, command) {
        Some(j) => !(t.is_node(j, SyntaxKind::Command) && t.elems[j].facts.name.is_some() && (t.elems[j].facts.defines_next
            || t.is_named(j, "let") || t.is_named(j, "futurelet"))),
        None => true,
    }
}

/// What an element does to expl3 syntax.
pub open spec fn toggle_at(t: &Tree, i: int) -> Option<ExplToggle> {
    if t.tok_is(i, SyntaxKind::ControlWord) && top_level(t, i) {
        t.elems@[i].facts.toggle
    } else {
        None
    }
}

/// The regions that the elements before `i` open and close: where the open region starts, and
/// the closed ones.
pub open spec fn toggled(t: &Tree, i: int) -> (Option<int>, Seq<Span>)
    decreases i,
{
    if i <= 0 {
        (None, Seq::empty())
    } else {
        let (open, closed) = toggled(t, i - 1);
        match toggle_at(t, i - 1) {
            Some(ExplToggle::On) => (if open is Some { open } else { Some(t.from(i - 1)) }, closed),
            Some(ExplToggle::Off) => match open {
                Some(start) => (None, closed.push(Span { start: start as usize, end: t.to(i - 1) as usize })),
                None => (None, closed),
            },
            None => (open, closed),
        }
    }
}

/// The regions that the toggles of a document delimit. An unclosed region runs to its end.
pub open spec fn toggle_regions(t: &Tree) -> Seq<Span> {
    let (open, closed) = toggled(t, t.n());
    match open {
        Some(start) => closed.push(Span { start: start as usize, end: t.to(0) as usize }),
        None => closed,
    }
}

fn collect_toggles(t: &Tree) -> (out: Vec<Span>)
    requires
        t.wf(),
    ensures
        out@ == toggle_regions(t),
        ordered(out@),
        solid(out@, t.from(0), t.to(0)),
{
    let mut out: Vec<Span> = Vec::new();
    let mut open: Option<usize> = None;
    let mut i: usize = 0;
    while i < t.len()
        invariant
            t.wf(),
            i <= t.n(),
            toggled(t, i as int) == (
                match open {
                    Some(start) => Some(start as int),
                    None => None,
                },
                out@,
            ),
            ordered(out@),
            solid(out@, t.from(0), t.to(0)),
            open matches Some(start) ==> t.from(0) <= start < t.to(0),
            forall|k: int, j: int|
                0 <= k < out@.len() && i <= j < t.n() && t.tok(j) ==> (#[trigger] out@[k]).end <= #[trigger] t.from(j),
            forall|k: int| 0 <= k < out@.len() ==> (#[trigger] out@[k]).end <= t.to(0),
            open matches Some(start) ==> start <= t.to(0) && forall|k: int| 0 <= k < out@.len() ==> (#[trigger] out@[k]).end <= start,
            open matches Some(start) ==> forall|j: int| i <= j < t.n() && t.tok(j) ==> start <= #[trigger] t.from(j),
        decreases t.n() - i,
    {
        if t.token_is(i, SyntaxKind::ControlWord) {
            proof {
                assert(i > 0);
                assert(t.end(0) == t.n());
                assert(t.from(i as int) < t.to(i as int)) by {
                    assert(t.tok(i as int));
                }
                assert(t.from(0) <= t.from(i as int) && t.to(i as int) <= t.to(0));
                assert forall|j: int| i < j < t.n() && t.tok(j) implies t.to(i as int) <= #[trigger] t.from(j) by {
                    assert(t.end(i as int) == i + 1);
                }
            }
            if toggle_is_top_level(t, i) {
                match t.elems[i].facts.toggle {
                    Some(ExplToggle::On) => {
                        if open.is_none() {
                            open = Some(t.span(i).start);
                        }
                    },
                    Some(ExplToggle::Off) => {
                        if let Some(start) = open {
                            out.push(Span { start, end: t.span(i).end });
                            open = None;
                        }
                    },
                    None => {},
                }
            }
        }
        i = i + 1;
    }
    if let Some(start) = open {
        out.push(Span { start, end: t.span(0).end });
    }
    out
}

// ---- chunks, margins and guards ------------------------------------------------------------

/// Whether the document has a documentation margin.
pub open spec fn has_margin(t: &Tree) -> bool {
    exists|i: int| 0 <= i < t.n() && #[trigger] t.tok_is(i, SyntaxKind::DocMargin)
}

fn margined(t: &Tree) -> (r: bool)
    requires
        t.wf(),
    ensures
        r == has_margin(t),
{
    let mut i: usize = 0;
    while i < t.len()
        invariant
            i <= t.n(),
            forall|k: int| 0 <= k < i ==> !#[trigger] t.tok_is(k, SyntaxKind::DocMargin),
        decreases t.n() - i,
    {
        if t.token_is(i, SyntaxKind::DocMargin) {
            assert(t.tok_is(i as int, SyntaxKind::DocMargin));
            return true;
        }
        i = i + 1;
    }
    false
}

/// Whether a node is a chunk of code in a documented source.
pub open spec fn is_chunk(t: &Tree, i: int) -> bool {
    t.node_is(i, SyntaxKind::Environment) && (t.named(i, "macrocode"@) || t.named(i, "macrocode*"@))
}

/// The body of a chunk: from behind its `\begin` up to its `\end`, or to the end of the chunk.
pub open spec fn chunk_body(t: &Tree, i: int) -> Seq<Span> {
    match t.kid(i, SyntaxKind::Begin) {
        Some(b) => piece(
            t.to(b as int),
            match t.kid(i, SyntaxKind::End) {
                Some(e) => t.from(e as int),
                None => t.to(i),
            },
        ),
        None => Seq::empty(),
    }
}

/// The smallest span that holds both.
pub open spec fn hull(a: Span, b: Span) -> Span {
    Span {
        start: if a.start < b.start { a.start } else { b.start },
        end: if a.end > b.end { a.end } else { b.end },
    }
}

/// A list of spans with one more, in order. Spans that overlap it become one with it.
pub open spec fn merged(spans: Seq<Span>, s: Span) -> Seq<Span>
    decreases spans.len(),
{
    if spans.len() == 0 || spans.last().end <= s.start {
        spans.push(s)
    } else if s.end <= spans.last().start {
        merged(spans.drop_last(), s).push(spans.last())
    } else {
        merged(spans.drop_last(), hull(spans.last(), s))
    }
}

/// Whether a position lies in a list of spans, or in one more.
pub(crate) proof fn lemma_covered_push(spans: Seq<Span>, s: Span, p: int)
    ensures
        covered(spans.push(s), p) <==> covered(spans, p) || holds(s, p),
{
    lemma_covered_add(spans, seq![s], p);
    assert(spans + seq![s] =~= spans.push(s));
    assert(holds(seq![s][0], p) == holds(s, p));
    if covered(seq![s], p) {
        let i = choose|i: int| 0 <= i < 1 && #[trigger] holds(seq![s][i], p);
        assert(i == 0);
    }
}

/// How far a list of spans reaches with one more.
pub open spec fn reach(spans: Seq<Span>, s: Span) -> int {
    if spans.len() > 0 && spans.last().end > s.end {
        spans.last().end as int
    } else {
        s.end as int
    }
}

/// Merging a span into a list that stands in order keeps the order, and covers what the list and
/// the span cover.
pub proof fn merging_covers_both(spans: Seq<Span>, s: Span)
    requires
        ordered(spans),
        s.start <= s.end,
    ensures
        ordered(merged(spans, s)),
        forall|p: int| #[trigger] covered(merged(spans, s), p) <==> covered(spans, p) || holds(s, p),
        forall|k: int| 0 <= k < merged(spans, s).len() ==> (#[trigger] merged(spans, s)[k]).end <= reach(spans, s),
    decreases spans.len(),
{
    if spans.len() == 0 || spans.last().end <= s.start {
        assert forall|p: int| #[trigger] covered(merged(spans, s), p) <==> covered(spans, p) || holds(s, p) by {
            lemma_covered_push(spans, s, p);
        }
        assert forall|k: int| 0 <= k < spans.len() implies (#[trigger] spans[k]).end <= s.start by {
            if k < spans.len() - 1 {
                assert(spans[k].end <= spans[spans.len() - 1].start);
                assert(spans[spans.len() - 1].start <= spans[spans.len() - 1].end);
            }
        }
    } else {
        let head = spans.drop_last();
        let last = spans[spans.len() - 1];
        assert(ordered(head));
        assert(last.start <= last.end);
        assert(head.push(last) =~= spans);
        if head.len() > 0 {
            assert(head.last() == spans[spans.len() - 2]);
            assert(spans[spans.len() - 2].end <= last.start);
        }
        if s.end <= last.start {
            merging_covers_both(head, s);
            let m = merged(head, s);
            assert forall|k: int| 0 <= k < m.len() implies (#[trigger] m[k]).end <= last.start by {
                assert(m[k].end <= reach(head, s));
            }
            assert forall|p: int| #[trigger] covered(merged(spans, s), p) <==> covered(spans, p) || holds(s, p) by {
                lemma_covered_push(m, last, p);
                lemma_covered_push(head, last, p);
                assert(covered(m, p) <==> covered(head, p) || holds(s, p));
            }
        } else {
            let h = hull(last, s);
            merging_covers_both(head, h);
            assert forall|p: int| #[trigger] covered(merged(spans, s), p) <==> covered(spans, p) || holds(s, p) by {
                lemma_covered_push(head, last, p);
                assert(holds(h, p) <==> holds(last, p) || holds(s, p));
                assert(covered(merged(head, h), p) <==> covered(head, p) || holds(h, p));
            }
            assert(reach(head, h) == h.end);
            assert(h.end == reach(spans, s));
        }
    }
}

fn merge_span(spans: Vec<Span>, s: Span) -> (r: Vec<Span>)
    requires
        ordered(spans@),
        s.start <= s.end,
    ensures
        r@ == merged(spans@, s),
        ordered(r@),
    decreases spans@.len(),
{
    proof {
        merging_covers_both(spans@, s);
    }
    let mut head = spans;
    match head.pop() {
        None => {
            head.push(s);
            head
        },
        Some(last) => {
            assert(head@ =~= spans@.drop_last());
            assert(ordered(head@));
            if last.end <= s.start {
                head.push(last);
                assert(head@ =~= spans@);
                head.push(s);
                head
            } else if s.end <= last.start {
                let mut r = merge_span(head, s);
                r.push(last);
                r
            } else {
                let start: usize = if last.start < s.start {
                    last.start
                } else {
                    s.start
                };
                let end: usize = if last.end > s.end {
                    last.end
                } else {
                    s.end
                };
                merge_span(head, Span { start, end })
            }
        },
    }
}

/// A list of bodies with that of a chunk, where it has one that is not empty.
pub open spec fn with_body(bodies: Seq<Span>, body: Seq<Span>) -> Seq<Span> {
    if body.len() > 0 {
        merged(bodies, body[0])
    } else {
        bodies
    }
}

/// The bodies of the chunks among the elements before `i`. A chunk within the body of another is
/// part of that body.
pub open spec fn chunk_bodies(t: &Tree, i: int) -> Seq<Span>
    decreases i,
{
    if i <= 0 {
        Seq::empty()
    } else if is_chunk(t, i - 1) {
        with_body(chunk_bodies(t, i - 1), chunk_body(t, i - 1))
    } else {
        chunk_bodies(t, i - 1)
    }
}

proof fn lemma_body(t: &Tree, i: int, p: int)
    ensures
        covered(chunk_body(t, i), p) <==> chunk_body(t, i).len() > 0 && holds(chunk_body(t, i)[0], p),
        chunk_body(t, i).len() > 0 ==> chunk_body(t, i)[0].start <= chunk_body(t, i)[0].end,
{
    let body = chunk_body(t, i);
    if covered(body, p) {
        let k = choose|k: int| 0 <= k < body.len() && #[trigger] holds(body[k], p);
        assert(k == 0);
    }
}

/// The bodies stand in order, and a position lies in one of them exactly where it lies in the body
/// of some chunk.
pub proof fn bodies_cover_every_chunk(t: &Tree, i: int)
    requires
        0 <= i <= t.n(),
    ensures
        ordered(chunk_bodies(t, i)),
        forall|p: int| #[trigger]
            covered(chunk_bodies(t, i), p) <==> exists|c: int|
                0 <= c < i && is_chunk(t, c) && #[trigger] covered(chunk_body(t, c), p),
    decreases i,
{
    if i > 0 {
        bodies_cover_every_chunk(t, i - 1);
        let before = chunk_bodies(t, i - 1);
        let body = chunk_body(t, i - 1);
        lemma_body(t, i - 1, 0);
        if is_chunk(t, i - 1) && body.len() > 0 {
            merging_covers_both(before, body[0]);
        }
        assert forall|p: int| #[trigger] covered(chunk_bodies(t, i), p) <==> exists|c: int|
            0 <= c < i && is_chunk(t, c) && #[trigger] covered(chunk_body(t, c), p) by {
            lemma_body(t, i - 1, p);
            assert(covered(before, p) <==> exists|c: int|
                0 <= c < i - 1 && is_chunk(t, c) && #[trigger] covered(chunk_body(t, c), p));
            assert(covered(chunk_bodies(t, i), p) <==> covered(before, p) || (is_chunk(t, i - 1) && covered(body, p)));
        }
    } else {
        assert forall|p: int| !covered(chunk_bodies(t, i), p) by {}
    }
}

fn collect_chunks(t: &Tree) -> (out: Vec<Span>)
    requires
        t.wf(),
    ensures
        out@ == chunk_bodies(t, t.n()),
        ordered(out@),
{
    let mut out: Vec<Span> = Vec::new();
    let mut i: usize = 0;
    while i < t.len()
        invariant
            t.wf(),
            i <= t.n(),
            out@ == chunk_bodies(t, i as int),
            ordered(out@),
        decreases t.n() - i,
    {
        if t.is_node(i, SyntaxKind::Environment) && (t.is_named(i, "macrocode") || t.is_named(i, "macrocode*")) {
            assert(is_chunk(t, i as int));
            if let Some(b) = t.nth_child(i, SyntaxKind::Begin, 0) {
                let start: usize = t.span(b).end;
                let end: usize = match t.nth_child(i, SyntaxKind::End, 0) {
                    Some(e) => t.span(e).start,
                    None => t.span(i).end,
                };
                if start < end {
                    out = merge_span(out, Span { start, end });
                }
            }
        }
        i = i + 1;
    }
    out
}

/// The regions restricted to the bodies of the chunks, in a documented source: no other line is
/// code there.
pub open spec fn in_chunks(t: &Tree, regions: Seq<Span>) -> Seq<Span> {
    if has_margin(t) {
        within(regions, chunk_bodies(t, t.n()))
    } else {
        regions
    }
}

/// The regions restricted to the bodies of the chunks, in a documented source.
fn intersect_macrocode_bodies(t: &Tree, regions: Vec<Span>) -> (out: Vec<Span>)
    requires
        t.wf(),
        ordered(regions@),
    ensures
        out@ == in_chunks(t, regions@),
        ordered(out@),
        forall|p: int| #[trigger]
            covered(out@, p) <==> covered(regions@, p) && (has_margin(t) ==> covered(chunk_bodies(t, t.n()), p)),
        solid(regions@, t.from(0), t.to(0)) ==> solid(out@, t.from(0), t.to(0)),
{
    if regions.len() == 0 || !margined(t) {
        assert(regions@.len() == 0 ==> forall|p: int| !covered(regions@, p));
        assert(regions@.len() == 0 ==> within(regions@, chunk_bodies(t, t.n())) =~= regions@);
        return regions;
    }
    let bodies = collect_chunks(t);
    proof {
        intersection_is_what_both_cover(regions@, bodies@);
        if solid(regions@, t.from(0), t.to(0)) {
            lemma_within_solid(regions@, bodies@, t.from(0), t.to(0));
        }
    }
    intersect(regions, &bodies)
}

/// The lines that a documentation margin opens, among the elements before `i`: where the line in
/// progress starts, and the lines that are complete.
pub open spec fn margin_lines(t: &Tree, i: int) -> (Option<int>, Seq<Span>)
    decreases i,
{
    if i <= 0 {
        (None, Seq::empty())
    } else {
        let (open, lines) = margin_lines(t, i - 1);
        if t.tok_is(i - 1, SyntaxKind::DocMargin) {
            (if open is Some { open } else { Some(t.from(i - 1)) }, lines)
        } else if t.tok_is(i - 1, SyntaxKind::Newline) {
            match open {
                Some(start) => (None, lines.push(Span { start: start as usize, end: t.to(i - 1) as usize })),
                None => (None, lines),
            }
        } else {
            (open, lines)
        }
    }
}

/// The documentation lines of a document, each from its margin through its line break.
pub open spec fn margin_holes(t: &Tree) -> Seq<Span> {
    let (open, lines) = margin_lines(t, t.n());
    match open {
        Some(start) => lines.push(Span { start: start as usize, end: t.to(0) as usize }),
        None => lines,
    }
}

/// The regions without the documentation lines.
fn subtract_doc_margin_lines(t: &Tree, regions: Vec<Span>) -> (out: Vec<Span>)
    requires
        t.wf(),
        ordered(regions@),
    ensures
        out@ == without(regions@, margin_holes(t)),
        ordered(out@),
        forall|p: int| #[trigger] covered(out@, p) <==> covered(regions@, p) && !covered(margin_holes(t), p),
        solid(regions@, t.from(0), t.to(0)) ==> solid(out@, t.from(0), t.to(0)),
{
    if regions.len() == 0 {
        assert(forall|p: int| !covered(regions@, p));
        assert(without(regions@, margin_holes(t)) =~= regions@);
        return regions;
    }
    let mut holes: Vec<Span> = Vec::new();
    let mut open: Option<usize> = None;
    let mut i: usize = 0;
    while i < t.len()
        invariant
            t.wf(),
            i <= t.n(),
            margin_lines(t, i as int) == (
                match open {
                    Some(start) => Some(start as int),
                    None => None,
                },
                holes@,
            ),
            ordered(holes@),
            forall|k: int, j: int|
                0 <= k < holes@.len() && i <= j < t.n() && t.tok(j) ==> (#[trigger] holes@[k]).end <= #[trigger] t.from(j),
            open matches Some(start) ==> start <= t.to(0) && forall|k: int|
                0 <= k < holes@.len() ==> (#[trigger] holes@[k]).end <= start,
            open matches Some(start) ==> forall|j: int| i <= j < t.n() && t.tok(j) ==> start <= #[trigger] t.from(j),
        decreases t.n() - i,
    {
        proof {
            if t.tok(i as int) {
                assert(i > 0);
                assert(t.end(0) == t.n());
                assert(t.from(i as int) <= t.to(i as int));
                assert(t.from(0) <= t.from(i as int) && t.to(i as int) <= t.to(0));
                assert forall|j: int| i < j < t.n() && t.tok(j) implies t.to(i as int) <= #[trigger] t.from(j) by {
                    assert(t.end(i as int) == i + 1);
                }
            }
        }
        if t.token_is(i, SyntaxKind::DocMargin) {
            if open.is_none() {
                open = Some(t.span(i).start);
            }
        } else if t.token_is(i, SyntaxKind::Newline) {
            if let Some(start) = open {
                holes.push(Span { start, end: t.span(i).end });
                open = None;
            }
        }
        i = i + 1;
    }
    if let Some(start) = open {
        holes.push(Span { start, end: t.span(0).end });
    }
    proof {
        subtraction_leaves_the_rest(regions@, holes@);
        if solid(regions@, t.from(0), t.to(0)) {
            lemma_without_solid(regions@, holes@, t.from(0), t.to(0));
        }
    }
    subtract_holes(regions, &holes)
}

/// The state of reading lines that a guard opens.
#[verifier::ext_equal]
pub ghost struct GuardScan {
    /// Where the line in progress starts, once it has a token.
    pub line: Option<int>,
    /// Whether the line in progress starts with a guard.
    pub guarded: bool,
    /// Where the last token ends.
    pub last: int,
    /// The guarded lines that are complete.
    pub lines: Seq<Span>,
}

/// The lines with the one from `line` up to `end`, where that is guarded.
pub open spec fn with_guarded(lines: Seq<Span>, line: int, guarded: bool, end: int) -> Seq<Span> {
    if guarded {
        lines.push(Span { start: line as usize, end: end as usize })
    } else {
        lines
    }
}

/// Reading the token `i`.
pub open spec fn guard_step(t: &Tree, i: int, s: GuardScan) -> GuardScan {
    let line = match s.line {
        Some(start) => start,
        None => t.from(i),
    };
    let guarded = if s.line is Some { s.guarded } else { t.k(i) == SyntaxKind::Guard };
    if t.k(i) != SyntaxKind::Newline {
        GuardScan { line: Some(line), guarded, last: t.to(i), lines: s.lines }
    } else {
        GuardScan { line: None, guarded, last: t.to(i), lines: with_guarded(s.lines, line, guarded, t.to(i)) }
    }
}

/// The guarded lines among the elements before `i`.
pub open spec fn guard_scan(t: &Tree, i: int) -> GuardScan
    decreases i,
{
    if i <= 0 {
        GuardScan { line: None, guarded: false, last: 0, lines: Seq::empty() }
    } else if t.tok(i - 1) {
        guard_step(t, i - 1, guard_scan(t, i - 1))
    } else {
        guard_scan(t, i - 1)
    }
}

/// The lines of a document that start with a guard, each through its line break. The last line
/// counts without a line break too.
pub open spec fn guarded_lines(t: &Tree) -> Seq<Span> {
    let s = guard_scan(t, t.n());
    match s.line {
        Some(line) => with_guarded(s.lines, line, s.guarded, s.last),
        None => s.lines,
    }
}

/// Whether a line stands directly behind or before another one of the list.
pub open spec fn touches(lines: Seq<Span>, k: int) -> bool {
    ||| 0 < k && lines[k - 1].end == lines[k].start
    ||| k + 1 < lines.len() && lines[k].end == lines[k + 1].start
}

/// Those of the first `n` lines that do.
pub open spec fn in_company(lines: Seq<Span>, n: int) -> Seq<Span>
    decreases n,
{
    if n <= 0 || n > lines.len() {
        Seq::empty()
    } else if touches(lines, n - 1) {
        in_company(lines, n - 1).push(lines[n - 1])
    } else {
        in_company(lines, n - 1)
    }
}

/// The runs of two or more adjacent guarded lines, line by line: the guarded lines that stand
/// directly behind or before another guarded line.
pub open spec fn guard_runs(t: &Tree) -> Seq<Span> {
    in_company(guarded_lines(t), guarded_lines(t).len() as int)
}

/// The guarded lines that have been read.
struct GuardLines {
    line: Option<usize>,
    guarded: bool,
    last: usize,
    lines: Vec<Span>,
}

impl GuardLines {
    spec fn v(&self) -> GuardScan {
        GuardScan {
            line: match self.line {
                Some(start) => Some(start as int),
                None => None,
            },
            guarded: self.guarded,
            last: self.last as int,
            lines: self.lines@,
        }
    }

    /// What has been read stands in order.
    spec fn ok(&self) -> bool {
        &&& ordered(self.lines@)
        &&& forall|k: int| 0 <= k < self.lines@.len() ==> (#[trigger] self.lines@[k]).end <= self.last
        &&& self.line matches Some(start) ==> start <= self.last && forall|k: int|
            0 <= k < self.lines@.len() ==> (#[trigger] self.lines@[k]).end <= start
    }

    fn take(self, t: &Tree, i: usize) -> (r: GuardLines)
        requires
            t.wf(),
            i < t.n(),
            t.tok(i as int),
            self.ok(),
            self.last <= t.from(i as int),
            t.from(i as int) <= t.to(i as int),
        ensures
            r.v() == guard_step(t, i as int, self.v()),
            r.ok(),
            r.last == t.to(i as int),
    {
        let start: usize = match self.line {
            Some(start) => start,
            None => t.span(i).start,
        };
        let guarded = if self.line.is_none() {
            t.kind(i) == SyntaxKind::Guard
        } else {
            self.guarded
        };
        let end: usize = t.span(i).end;
        let mut lines = self.lines;
        if t.kind(i) == SyntaxKind::Newline {
            if guarded {
                lines.push(Span { start, end });
            }
            GuardLines { line: None, guarded, last: end, lines }
        } else {
            GuardLines { line: Some(start), guarded, last: end, lines }
        }
    }
}

fn collect_guarded_lines(t: &Tree) -> (out: Vec<Span>)
    requires
        t.wf(),
    ensures
        out@ == guarded_lines(t),
        ordered(out@),
{
    let mut s = GuardLines { line: None, guarded: false, last: 0, lines: Vec::new() };
    let mut i: usize = 0;
    assert(s.v() =~= guard_scan(t, 0));
    while i < t.len()
        invariant
            t.wf(),
            i <= t.n(),
            s.v() == guard_scan(t, i as int),
            s.ok(),
            forall|j: int| i <= j < t.n() && t.tok(j) ==> s.last <= #[trigger] t.from(j),
        decreases t.n() - i,
    {
        if t.is_token(i) {
            proof {
                assert(t.from(i as int) <= t.to(i as int));
                assert forall|j: int| i < j < t.n() && t.tok(j) implies t.to(i as int) <= #[trigger] t.from(j) by {
                    assert(t.end(i as int) == i + 1);
                }
            }
            s = s.take(t, i);
        }
        i = i + 1;
    }
    let mut lines = s.lines;
    if let Some(start) = s.line {
        if s.guarded {
            lines.push(Span { start, end: s.last });
        }
    }
    lines
}

fn keep_touching(lines: &Vec<Span>) -> (out: Vec<Span>)
    requires
        ordered(lines@),
    ensures
        out@ == in_company(lines@, lines@.len() as int),
        ordered(out@),
{
    let n: usize = lines.len();
    let mut out: Vec<Span> = Vec::new();
    let mut k: usize = 0;
    while k < n
        invariant
            n == lines@.len(),
            k <= n,
            ordered(lines@),
            out@ == in_company(lines@, k as int),
            ordered(out@),
            forall|i: int, j: int|
                0 <= i < out@.len() && k <= j < n ==> (#[trigger] out@[i]).end <= (#[trigger] lines@[j]).start,
        decreases n - k,
    {
        let line = lines[k];
        let behind = k > 0 && lines[k - 1].end == line.start;
        let before = k + 1 < n && line.end == lines[k + 1].start;
        if behind || before {
            out.push(line);
        }
        k = k + 1;
    }
    out
}

/// The regions without the runs of two or more adjacent guarded lines.
fn subtract_guarded_line_runs(t: &Tree, regions: Vec<Span>) -> (out: Vec<Span>)
    requires
        t.wf(),
        ordered(regions@),
    ensures
        out@ == without(regions@, guard_runs(t)),
        ordered(out@),
        forall|p: int| #[trigger] covered(out@, p) <==> covered(regions@, p) && !covered(guard_runs(t), p),
        solid(regions@, t.from(0), t.to(0)) ==> solid(out@, t.from(0), t.to(0)),
{
    if regions.len() == 0 {
        assert(forall|p: int| !covered(regions@, p));
        assert(without(regions@, guard_runs(t)) =~= regions@);
        return regions;
    }
    let holes = keep_touching(&collect_guarded_lines(t));
    proof {
        subtraction_leaves_the_rest(regions@, holes@);
        if solid(regions@, t.from(0), t.to(0)) {
            lemma_without_solid(regions@, holes@, t.from(0), t.to(0));
        }
    }
    subtract_holes(regions, &holes)
}

/// The expl3 regions of a document.
pub open spec fn regions_of(t: &Tree) -> Seq<Span> {
    without(without(in_chunks(t, toggle_regions(t)), margin_holes(t)), guard_runs(t))
}

/// The expl3 regions of a document, in order: from a toggle that switches expl3 syntax on through
/// the one that switches it off, or to the end of the document. A documented source has them in
/// its chunks of code only, without the documentation lines and the runs of guarded lines.
pub fn expl3_regions(t: &Tree) -> (out: Vec<Span>)
    requires
        t.wf(),
    ensures
        out@ == regions_of(t),
        ordered(out@),
        solid(out@, t.from(0), t.to(0)),
        forall|p: int| #[trigger]
            covered(out@, p) <==> covered(toggle_regions(t), p) && (has_margin(t) ==> covered(
                chunk_bodies(t, t.n()),
                p,
            )) && !covered(margin_holes(t), p) && !covered(guard_runs(t), p),
        forall|margin: int, stop: int, p: int| #[trigger]
            in_documentation_line(t, margin, stop, p) ==> !covered(out@, p),
{
    proof {
        assert forall|margin: int, stop: int, p: int| #[trigger]
            in_documentation_line(t, margin, stop, p) implies covered(margin_holes(t), p) by {
            documentation_lines_are_cut_out(t, margin, stop, p);
        }
    }
    let regions = collect_toggles(t);
    let regions = intersect_macrocode_bodies(t, regions);
    let regions = subtract_doc_margin_lines(t, regions);
    subtract_guarded_line_runs(t, regions)
}

proof fn lemma_margin_open(t: &Tree, i: int, j: int)
    requires
        t.wf(),
        0 <= i < j <= t.n(),
        t.tok_is(i, SyntaxKind::DocMargin),
        forall|k: int| i < k < j ==> !#[trigger] t.tok_is(k, SyntaxKind::Newline),
    ensures
        margin_lines(t, j).0 matches Some(start) && 0 <= start <= t.from(i),
    decreases j,
{
    if j == i + 1 {
        lemma_margin_start(t, i);
    } else {
        lemma_margin_open(t, i, j - 1);
        assert(!t.tok_is(j - 1, SyntaxKind::Newline));
    }
}

proof fn lemma_margin_start(t: &Tree, i: int)
    requires
        t.wf(),
        0 <= i <= t.n(),
    ensures
        margin_lines(t, i).0 matches Some(start) ==> 0 <= start && forall|j: int|
            i <= j < t.n() && #[trigger] t.tok(j) ==> start <= t.from(j),
    decreases i,
{
    if i > 0 {
        lemma_margin_start(t, i - 1);
        if t.tok(i - 1) {
            assert forall|j: int| i <= j < t.n() && #[trigger] t.tok(j) implies t.from(i - 1) <= t.from(j) by {
                assert(t.end(i - 1) == i);
                assert(t.to(i - 1) <= t.from(j));
                assert(t.from(i - 1) <= t.to(i - 1));
            }
        }
    }
}

proof fn lemma_margin_kept(t: &Tree, i: int, j: int, p: int)
    requires
        0 <= i <= j,
        covered(margin_lines(t, i).1, p),
    ensures
        covered(margin_lines(t, j).1, p),
    decreases j - i,
{
    if i < j {
        lemma_margin_kept(t, i, j - 1, p);
        let lines = margin_lines(t, j - 1).1;
        let k = choose|k: int| 0 <= k < lines.len() && #[trigger] holds(lines[k], p);
        assert(holds(margin_lines(t, j).1[k], p));
    }
}

/// Whether position `p` lies from the documentation margin `margin` through the end of its line:
/// `stop` is the first line break behind the margin, or the end of the tree.
pub open spec fn in_documentation_line(t: &Tree, margin: int, stop: int, p: int) -> bool {
    &&& 0 <= margin < stop <= t.n()
    &&& t.tok_is(margin, SyntaxKind::DocMargin)
    &&& stop < t.n() ==> t.tok_is(stop, SyntaxKind::Newline)
    &&& forall|k: int| margin < k < stop ==> !#[trigger] t.tok_is(k, SyntaxKind::Newline)
    &&& t.from(margin) <= p < (if stop < t.n() { t.to(stop) } else { t.to(0) })
}

/// The documentation lines are cut out from the margin through the line break.
pub proof fn documentation_lines_are_cut_out(t: &Tree, margin: int, stop: int, p: int)
    requires
        t.wf(),
        in_documentation_line(t, margin, stop, p),
    ensures
        covered(margin_holes(t), p),
{
    lemma_margin_open(t, margin, stop);
    let (open, lines) = margin_lines(t, stop);
    let all = margin_holes(t);
    if stop < t.n() {
        let grown = margin_lines(t, stop + 1).1;
        assert(holds(grown[lines.len() as int], p));
        lemma_margin_kept(t, stop + 1, t.n(), p);
        let last = margin_lines(t, t.n()).1;
        let k = choose|k: int| 0 <= k < last.len() && #[trigger] holds(last[k], p);
        assert(holds(all[k], p));
    } else {
        assert(holds(all[lines.len() as int], p));
    }
}

// ---- asking --------------------------------------------------------------------------------

/// Whether position `at` lies in one of the spans. The spans stand in order.
pub(crate) fn in_spans(spans: &Vec<Span>, at: usize) -> (r: bool)
    requires
        ordered(spans@),
    ensures
        r == covered(spans@, at as int),
{
    let mut lo: usize = 0;
    let mut hi: usize = spans.len();
    while lo < hi
        invariant
            ordered(spans@),
            lo <= hi <= spans.len(),
            forall|k: int| 0 <= k < lo ==> (#[trigger] spans@[k]).end <= at,
            forall|k: int| hi <= k < spans.len() ==> at < (#[trigger] spans@[k]).start,
        decreases hi - lo,
    {
        let mid: usize = lo + (hi - lo) / 2;
        let span = spans[mid];
        if at < span.start {
            proof {
                assert forall|k: int| mid <= k < spans.len() implies at < (#[trigger] spans@[k]).start by {
                    if k > mid {
                        assert(spans@[mid as int].end <= spans@[k].start);
                    }
                }
            }
            hi = mid;
        } else if at >= span.end {
            proof {
                assert forall|k: int| 0 <= k <= mid implies (#[trigger] spans@[k]).end <= at by {
                    if k < mid {
                        assert(spans@[k].end <= spans@[mid as int].start);
                    }
                }
            }
            lo = mid + 1;
        } else {
            assert(holds(spans@[mid as int], at as int));
            return true;
        }
    }
    proof {
        if covered(spans@, at as int) {
            let k = choose|k: int| 0 <= k < spans@.len() && #[trigger] holds(spans@[k], at as int);
            assert(k < lo || hi <= k);
        }
    }
    false
}

/// Whether one of the spans overlaps `range`.
pub open spec fn touched(spans: Seq<Span>, range: Span) -> bool {
    exists|i: int| 0 <= i < spans.len() && #[trigger] meet(spans[i], range)
}

pub(crate) fn overlaps_spans(spans: &Vec<Span>, range: Span) -> (r: bool)
    ensures
        r == touched(spans@, range),
{
    let mut i: usize = 0;
    while i < spans.len()
        invariant
            i <= spans.len(),
            forall|k: int| 0 <= k < i ==> !#[trigger] meet(spans@[k], range),
        decreases spans.len() - i,
    {
        if ranges_overlap(spans[i], range) {
            assert(meet(spans@[i as int], range));
            return true;
        }
        i = i + 1;
    }
    false
}

/// Whether span `outer` holds all of `inner`.
pub open spec fn encloses(outer: Span, inner: Span) -> bool {
    outer.start <= inner.start && inner.end <= outer.end
}

/// Whether `range` lies wholly in one of the spans.
pub open spec fn enclosed(spans: Seq<Span>, range: Span) -> bool {
    exists|i: int| 0 <= i < spans.len() && #[trigger] encloses(spans[i], range)
}

pub(crate) fn within_spans(spans: &Vec<Span>, range: Span) -> (r: bool)
    ensures
        r == enclosed(spans@, range),
{
    let mut i: usize = 0;
    while i < spans.len()
        invariant
            i <= spans.len(),
            forall|k: int| 0 <= k < i ==> !#[trigger] encloses(spans@[k], range),
        decreases spans.len() - i,
    {
        if spans[i].start <= range.start && range.end <= spans[i].end {
            assert(encloses(spans@[i as int], range));
            return true;
        }
        i = i + 1;
    }
    false
}

/// Whether `range` lies wholly in the body of a `document` environment.
pub open spec fn document_body_holds(t: &Tree, i: int, range: Span) -> bool {
    t.node_is(i, SyntaxKind::Environment) && t.named(i, "document"@) && match (
        t.kid(i, SyntaxKind::Begin),
        t.kid(i, SyntaxKind::End),
    ) {
        (Some(b), Some(e)) => t.to(b as int) <= range.start && range.end <= t.from(e as int),
        _ => false,
    }
}

/// Whether `range` lies wholly in the body of a `document` environment.
pub(crate) fn document_body_contains(t: &Tree, i: usize, range: Span) -> (r: bool)
    requires
        t.wf(),
        i < t.n(),
    ensures
        r == document_body_holds(t, i as int, range),
{
    if !(t.is_node(i, SyntaxKind::Environment) && t.is_named(i, "document")) {
        return false;
    }
    match t.nth_child(i, SyntaxKind::Begin, 0) {
        Some(b) => match t.nth_child(i, SyntaxKind::End, 0) {
            Some(e) => range.start >= t.span(b).end && range.end <= t.span(e).start,
            None => false,
        },
        None => false,
    }
}

} // verus!

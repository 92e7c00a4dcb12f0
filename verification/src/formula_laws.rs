//! Where the lines of a formula may end.

use vstd::prelude::*;

use crate::display::{
    anchors, any_breaks_before, break_or_sep, broken_run, depth_before, flat_run, formula_layout, lemma_next_anchor,
    next_anchor, relations, right_side, space_sep, Formula, Piece,
};
use crate::ir::{align, concat, flat_text, forces_break, group, space, Layout};
use crate::math::{clamped, MathBreakKind, MathRole, Surface};
use crate::syntax::{DelimiterRole, MathClass};

verus! {

/// How many brackets the first `k` pieces open, less those that they close.
pub open spec fn open_brackets(pieces: Seq<Piece>, k: int) -> int
    decreases k,
{
    if k <= 0 {
        0
    } else {
        open_brackets(pieces, k - 1) + pieces[k - 1].delta
    }
}

/// Whether piece `k` is a binary operator between two terms outside of brackets that a line may
/// start with.
pub open spec fn starts_line(pieces: Seq<Piece>, k: int) -> bool {
    &&& pieces[k].role == MathRole::Binary
    &&& pieces[k - 1].role == MathRole::Operand
    &&& pieces[k].break_before
    &&& open_brackets(pieces, k) == 0
}

/// Whether piece `k` is a relation outside of brackets that a line may start with.
pub open spec fn starts_relation(pieces: Seq<Piece>, k: int) -> bool {
    &&& pieces[k].role == MathRole::Relation
    &&& pieces[k].break_before
    &&& open_brackets(pieces, k) == 0
}

/// What stands between piece `k` and the one before it on one line: a space around a spaced slash,
/// nothing at the minus of a limit from the left, a space around operators and where the source
/// has one, and nothing elsewhere.
pub open spec fn apart_by(pieces: Seq<Piece>, k: int, sep: Layout) -> bool {
    let (a, b) = (pieces[k - 1], pieces[k]);
    let slash = a.spaced_slash || b.spaced_slash;
    let limit = a.role == MathRole::PostfixLeftLimit || b.role == MathRole::PostfixLeftLimit;
    let terms = a.role == MathRole::Operand && b.role == MathRole::Operand;
    &&& slash ==> sep == space()
    &&& !slash && limit ==> sep == Layout::Nil
    &&& !slash && !limit && (!terms || b.space_before) ==> sep == Layout::Text(seq![' '])
    &&& !slash && !limit && terms && !b.space_before ==> sep == Layout::Nil
}

proof fn lemma_depth(pieces: Seq<Piece>, k: int)
    requires
        0 <= k <= pieces.len(),
    ensures
        depth_before(pieces, k) == open_brackets(pieces, k),
    decreases k,
{
    if k > 0 {
        lemma_depth(pieces, k - 1);
    }
}

proof fn lemma_broken_run(pieces: Seq<Piece>, n: int)
    requires
        0 < n <= pieces.len(),
    ensures
        broken_run(pieces, n).len() == 2 * n - 1,
        forall|i: int| 0 <= i < n ==> broken_run(pieces, n)[2 * i] == (#[trigger] pieces[i]).layout,
        forall|i: int|
            0 < i < n ==> broken_run(pieces, n)[2 * i - 1] == #[trigger] break_or_sep(pieces, i),
    decreases n,
{
    if n > 1 {
        lemma_broken_run(pieces, n - 1);
        let before = broken_run(pieces, n - 1);
        assert forall|i: int| 0 <= i < n implies broken_run(pieces, n)[2 * i] == (#[trigger] pieces[i]).layout by {
            if i < n - 1 {
                assert(before[2 * i] == pieces[i].layout);
            }
        }
        assert forall|i: int| 0 < i < n implies broken_run(pieces, n)[2 * i - 1] == #[trigger] break_or_sep(pieces, i) by {
            if i < n - 1 {
                assert(before[2 * i - 1] == break_or_sep(pieces, i));
            }
        }
    }
}

/// A formula without a relation outside of brackets is its pieces in order. Its lines may end
/// exactly before the binary operators between two terms outside of brackets that allow it.
/// Elsewhere the pieces stand next to one another as on one line.
pub proof fn a_formula_without_relations_breaks_before_its_operators(pieces: Seq<Piece>)
    requires
        pieces.len() > 0,
        forall|k: int| 0 <= k < pieces.len() ==> !#[trigger] starts_relation(pieces, k),
    ensures
        exists|parts: Seq<Layout>|
            {
                &&& formula_layout(pieces) == group(#[trigger] concat(parts))
                &&& parts.len() == 2 * pieces.len() - 1
                &&& forall|i: int| 0 <= i < pieces.len() ==> parts[2 * i] == (#[trigger] pieces[i]).layout
                &&& forall|i: int|
                    0 < i < pieces.len() ==> if #[trigger] starts_line(pieces, i) {
                        parts[2 * i - 1] == Layout::Line
                    } else {
                        apart_by(pieces, i, parts[2 * i - 1])
                    }
            },
{
    let n = pieces.len() as int;
    let parts = broken_run(pieces, n);
    lemma_broken_run(pieces, n);
    lemma_no_anchor(pieces, 0);
    assert forall|i: int| 0 < i < n implies if #[trigger] starts_line(pieces, i) {
        parts[2 * i - 1] == Layout::Line
    } else {
        apart_by(pieces, i, parts[2 * i - 1])
    } by {
        lemma_depth(pieces, i);
        assert(parts[2 * i - 1] == break_or_sep(pieces, i));
    }
    assert(formula_layout(pieces) == group(concat(parts)));
}

proof fn lemma_no_anchor(pieces: Seq<Piece>, k: int)
    requires
        0 <= k <= pieces.len(),
        forall|j: int| k <= j < pieces.len() ==> !#[trigger] starts_relation(pieces, j),
    ensures
        next_anchor(pieces, k) == pieces.len(),
    decreases pieces.len() - k,
{
    if k < pieces.len() {
        lemma_depth(pieces, k);
        assert(!starts_relation(pieces, k));
        lemma_no_anchor(pieces, k + 1);
    }
}

/// The next relation from `k` on is the first one.
proof fn lemma_first_anchor(pieces: Seq<Piece>, k: int)
    requires
        0 <= k <= pieces.len(),
    ensures
        ({
            let a = next_anchor(pieces, k);
            &&& k <= a <= pieces.len()
            &&& a < pieces.len() ==> starts_relation(pieces, a)
            &&& forall|j: int| k <= j < a ==> !#[trigger] starts_relation(pieces, j)
        }),
    decreases pieces.len() - k,
{
    lemma_next_anchor(pieces, k);
    if k < pieces.len() {
        lemma_depth(pieces, k);
        if !anchors(pieces, k) {
            lemma_first_anchor(pieces, k + 1);
        }
    }
}

proof fn lemma_right_side(pieces: Seq<Piece>, lo: int, hi: int)
    requires
        0 <= lo <= hi <= pieces.len(),
    ensures
        right_side(pieces, lo, hi).len() == 2 * (hi - lo),
        forall|i: int| lo <= i < hi ==> right_side(pieces, lo, hi)[2 * (i - lo) + 1] == (#[trigger] pieces[i]).layout,
        forall|i: int|
            lo <= i < hi ==> right_side(pieces, lo, hi)[2 * (i - lo)] == #[trigger] break_or_sep(pieces, i),
    decreases hi - lo,
{
    if lo < hi {
        lemma_right_side(pieces, lo, hi - 1);
        let before = right_side(pieces, lo, hi - 1);
        assert forall|i: int| lo <= i < hi implies right_side(pieces, lo, hi)[2 * (i - lo) + 1] == (#[trigger] pieces[i]).layout by {
            if i < hi - 1 {
                assert(before[2 * (i - lo) + 1] == pieces[i].layout);
            }
        }
        assert forall|i: int| lo <= i < hi implies right_side(pieces, lo, hi)[2 * (i - lo)] == #[trigger] break_or_sep(
            pieces,
            i,
        ) by {
            if i < hi - 1 {
                assert(before[2 * (i - lo)] == break_or_sep(pieces, i));
            }
        }
    }
}

/// Each relation outside of brackets starts a line where lines are broken, and the first one does
/// what `before` says. Behind the relation stand the pieces up to the next one, aligned behind it;
/// inside, lines may end before the binary operators that allow it.
pub proof fn each_relation_starts_a_line(pieces: Seq<Piece>, a: int, before: Layout, r: int)
    requires
        0 <= a <= r < pieces.len(),
        starts_relation(pieces, a),
        starts_relation(pieces, r),
    ensures
        ({
            let parts = relations(pieces, a, true, before);
            exists|q: int, body: Seq<Layout>, end: int|
                {
                    &&& 0 <= q && q + 2 < parts.len()
                    &&& parts[q] == (if r == a {
                        before
                    } else {
                        Layout::Line
                    })
                    &&& parts[q + 1] == pieces[r].layout
                    &&& #[trigger] relation_part(parts, q) == group(
                        align(clamped(flat_text(pieces[r].layout).len() as int + 1), #[trigger] concat(body)),
                    )
                    &&& #[trigger] right_of(pieces, r, end, body)
                }
        }),
    decreases r - a,
{
    lemma_each_relation(pieces, a, true, before, r);
}

/// The piece behind a relation.
pub open spec fn relation_part(parts: Seq<Layout>, q: int) -> Layout {
    parts[q + 2]
}

/// The pieces behind relation `r` up to `end`, where the next relation is, with what stands before
/// each.
pub open spec fn right_of(pieces: Seq<Piece>, r: int, end: int, body: Seq<Layout>) -> bool {
    &&& r < end <= pieces.len()
    &&& end < pieces.len() ==> starts_relation(pieces, end)
    &&& forall|j: int| r < j < end ==> !#[trigger] starts_relation(pieces, j)
    &&& body.len() == 2 * (end - r - 1)
    &&& forall|i: int| r < i < end ==> body[2 * (i - r - 1) + 1] == (#[trigger] pieces[i]).layout
    &&& forall|i: int|
        r < i < end ==> if #[trigger] starts_line(pieces, i) {
            body[2 * (i - r - 1)] == Layout::Line
        } else {
            apart_by(pieces, i, body[2 * (i - r - 1)])
        }
}

proof fn lemma_each_relation(pieces: Seq<Piece>, a: int, first: bool, before: Layout, r: int)
    requires
        0 <= a <= r < pieces.len(),
        starts_relation(pieces, a),
        starts_relation(pieces, r),
    ensures
        ({
            let parts = relations(pieces, a, first, before);
            exists|q: int, body: Seq<Layout>, end: int|
                {
                    &&& 0 <= q && q + 2 < parts.len()
                    &&& parts[q] == (if r == a && first {
                        before
                    } else {
                        Layout::Line
                    })
                    &&& parts[q + 1] == pieces[r].layout
                    &&& #[trigger] relation_part(parts, q) == group(
                        align(clamped(flat_text(pieces[r].layout).len() as int + 1), #[trigger] concat(body)),
                    )
                    &&& #[trigger] right_of(pieces, r, end, body)
                }
        }),
    decreases r - a,
{
    let parts = relations(pieces, a, first, before);
    let j = next_anchor(pieces, a + 1);
    lemma_first_anchor(pieces, a + 1);
    let rest = relations(pieces, j, false, before);
    if r == a {
        let body = right_side(pieces, a + 1, j);
        lemma_right_side(pieces, a + 1, j);
        assert forall|i: int| a < i < j implies if #[trigger] starts_line(pieces, i) {
            body[2 * (i - a - 1)] == Layout::Line
        } else {
            apart_by(pieces, i, body[2 * (i - a - 1)])
        } by {
            lemma_depth(pieces, i);
            assert(body[2 * (i - (a + 1))] == break_or_sep(pieces, i));
        }
        assert forall|i: int| a < i < j implies body[2 * (i - a - 1) + 1] == (#[trigger] pieces[i]).layout by {
            assert(body[2 * (i - (a + 1)) + 1] == pieces[i].layout);
        }
        assert(right_of(pieces, r, j, body));
        assert(relation_part(parts, 0) == group(align(clamped(flat_text(pieces[r].layout).len() as int + 1), concat(body))));
    } else {
        assert(j <= r) by {
            if j > r {
                assert(!starts_relation(pieces, r));
            }
        }
        lemma_each_relation(pieces, j, false, before, r);
        let (q, body, end) = choose|q: int, body: Seq<Layout>, end: int|
            {
                &&& 0 <= q && q + 2 < rest.len()
                &&& rest[q] == Layout::Line
                &&& rest[q + 1] == pieces[r].layout
                &&& #[trigger] relation_part(rest, q) == group(
                    align(clamped(flat_text(pieces[r].layout).len() as int + 1), #[trigger] concat(body)),
                )
                &&& #[trigger] right_of(pieces, r, end, body)
            };
        assert(parts[q + 3] == rest[q] && parts[q + 4] == rest[q + 1] && parts[q + 5] == rest[q + 2]);
        assert(relation_part(parts, q + 3) == relation_part(rest, q));
    }
}

proof fn lemma_flat_run(pieces: Seq<Piece>, n: int)
    requires
        0 < n <= pieces.len(),
    ensures
        flat_run(pieces, n).len() == 2 * n - 1,
        forall|i: int| 0 <= i < n ==> flat_run(pieces, n)[2 * i] == (#[trigger] pieces[i]).layout,
    decreases n,
{
    if n > 1 {
        lemma_flat_run(pieces, n - 1);
        let before = flat_run(pieces, n - 1);
        assert forall|i: int| 0 <= i < n implies flat_run(pieces, n)[2 * i] == (#[trigger] pieces[i]).layout by {
            if i < n - 1 {
                assert(before[2 * i] == pieces[i].layout);
            }
        }
    }
}

/// The pieces before `n` on one line.
pub open spec fn on_one_line(pieces: Seq<Piece>, n: int, parts: Seq<Layout>) -> bool {
    &&& parts.len() == 2 * n - 1
    &&& forall|i: int| 0 <= i < n ==> parts[2 * i] == (#[trigger] pieces[i]).layout
    &&& forall|i: int| 0 < i < n ==> #[trigger] apart_by(pieces, i, parts[2 * i - 1])
}

proof fn lemma_flat_seps(pieces: Seq<Piece>, n: int)
    requires
        0 < n <= pieces.len(),
    ensures
        on_one_line(pieces, n, flat_run(pieces, n)),
    decreases n,
{
    lemma_flat_run(pieces, n);
    if n > 1 {
        lemma_flat_seps(pieces, n - 1);
        let before = flat_run(pieces, n - 1);
        let parts = flat_run(pieces, n);
        assert forall|i: int| 0 < i < n implies #[trigger] apart_by(pieces, i, parts[2 * i - 1]) by {
            if i < n - 1 {
                assert(apart_by(pieces, i, before[2 * i - 1]));
                assert(parts[2 * i - 1] == before[2 * i - 1]);
            }
        }
    }
}

/// A formula with a left side of one line has two forms. In the one, the left side and the first
/// relation stand on one line and the relations under one another, behind the left side and one
/// blank; in the other, all relations start lines under the left side.
pub proof fn relations_stand_under_one_another(pieces: Seq<Piece>, a: int)
    requires
        0 < a < pieces.len(),
        starts_relation(pieces, a),
        forall|k: int| 0 <= k < a ==> !#[trigger] starts_relation(pieces, k),
        forall|k: int| 0 <= k < a ==> !forces_break((#[trigger] pieces[k]).layout),
    ensures
        exists|left: Seq<Layout>, sep: Layout|
            {
                &&& on_one_line(pieces, a, left)
                &&& #[trigger] apart_by(pieces, a, sep)
                &&& formula_layout(pieces) == group(
                    Layout::BoundedAlign {
                        aligned: Box::new(
                            align(
                                clamped(flat_text(#[trigger] concat(left)).len() as int + 1),
                                concat(left + relations(pieces, a, true, sep)),
                            ),
                        ),
                        hanging: Box::new(align(0, concat(left + relations(pieces, a, true, Layout::Line)))),
                    },
                )
            },
{
    lemma_first_anchor(pieces, 0);
    let first = next_anchor(pieces, 0);
    assert(first == a) by {
        if first > a {
            assert(!starts_relation(pieces, a));
        } else if first < a {
            assert(!starts_relation(pieces, first));
        }
    }
    lemma_flat_seps(pieces, a);
    let left = flat_run(pieces, a);
    let sep = space_sep(pieces, a);
    assert(apart_by(pieces, a, sep));
    assert(concat(left) == concat(flat_run(pieces, a)));
    assert(!any_breaks_before(pieces, a));
}

/// A piece may start a line unless it is a multiplication or a condition, or a relation behind a
/// condition outside of brackets. It knows whether there was white space before it, and what it
/// opens and closes.
pub proof fn pieces_know_whether_they_start_lines(s: Formula, a: Surface)
    ensures
        ({
            let next = s.with_piece(a);
            let piece = next.pieces.last();
            &&& next.pieces.drop_last() == s.pieces
            &&& piece.layout == a.layout
            &&& piece.space_before == s.space
            &&& !next.space
            &&& a.break_kind == MathBreakKind::Multiplicative || a.break_kind == MathBreakKind::Conditional
                ==> !piece.break_before
            &&& a.break_kind != MathBreakKind::Multiplicative && a.break_kind != MathBreakKind::Conditional
                && !s.conditional ==> piece.break_before
            &&& s.conditional && a.class == MathClass::Rel && !a.postfix ==> !piece.break_before
            &&& a.delimiter == Some(DelimiterRole::Open) ==> piece.delta == 1
            &&& a.delimiter == Some(DelimiterRole::Close) ==> piece.delta == -1
            &&& a.delimiter is None ==> piece.delta == 0
            &&& next.depth == s.depth + piece.delta
            &&& next.conditional <==> s.conditional || (a.break_kind == MathBreakKind::Conditional && s.depth == 0)
        }),
{
    reveal(Formula::with_piece);
    assert(s.with_piece(a).pieces.drop_last() =~= s.pieces);
}

} // verus!

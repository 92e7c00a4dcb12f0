//! What stays with the delimiters of formulas and the headers of environments.

use vstd::prelude::*;

use crate::context::LowerCtx;
use crate::display::{display_formula, formula, inline_parts, Formula};
use crate::environments::{env_split, margin_framed};
use crate::gap::{gap_end, lemma_gap_end, peel_back, peel_front};
use crate::ir::{concat2, verbatim, Layout};
use crate::math::{atoms_of, math_element, MathSpacing};
use crate::predicates::{inline_comment_in, is_label, leading_comment};
use crate::spine::{a_concatenation_has_the_pieces_of_its_parts, edge, lemma_spines_push, spine, spines};
use crate::syntax::{SyntaxKind, Tree};

verus! {

// ---- formulas ------------------------------------------------------------------------------

/// Element `j` of a formula ends a line whatever the width: it is a comment or the break of a row.
pub open spec fn ends_formula_line(cx: LowerCtx, es: Seq<usize>, j: int) -> bool {
    !cx.t.gap(es[j] as int) && (cx.t.tok_is(es[j] as int, SyntaxKind::Comment) || cx.t.node_is(
        es[j] as int,
        SyntaxKind::LineBreak,
    ))
}

proof fn lemma_gap_within(t: &Tree, es: Seq<usize>, i: int, j: int)
    requires
        0 <= i <= j < es.len(),
        !t.gap(es[j] as int),
    ensures
        gap_end(t, es, i) <= j,
    decreases j - i,
{
    if i < j && t.gap(es[i] as int) {
        lemma_gap_within(t, es, i + 1, j);
    }
}

/// A formula with a comment or the break of a row in it is never cut into pieces: its lines stay as
/// they are.
pub proof fn a_formula_with_a_comment_is_not_cut(
    cx: LowerCtx,
    es: Seq<usize>,
    i: int,
    s: Formula,
    j: int,
    fuel: nat,
)
    requires
        0 <= i <= j < es.len(),
        ends_formula_line(cx, es, j),
    ensures
        formula(cx, es, i, s, fuel) is None,
    decreases j - i,
{
    let e = es[i] as int;
    if i < j {
        lemma_gap_end(cx.t, es, i);
        if cx.t.gap(e) {
            lemma_gap_within(cx.t, es, i, j);
            a_formula_with_a_comment_is_not_cut(cx, es, gap_end(cx.t, es, i), s.with_gap(), j, fuel);
        } else if !ends_formula_line(cx, es, i) {
            a_formula_with_a_comment_is_not_cut(
                cx,
                es,
                i + 1,
                s.with_all(atoms_of(cx, e, MathSpacing::Normal, fuel)),
                j,
                fuel,
            );
        }
    }
}

/// A label at the start of a display formula has a line of its own, and the formula is laid out as
/// it would be without it.
pub proof fn a_label_before_a_formula_has_its_line(cx: LowerCtx, es: Seq<usize>, i: int, j: int, fuel: nat)
    requires
        0 <= i < j < es.len(),
        gap_end(cx.t, es, 0) == i,
        is_label(cx.t, es[i] as int),
        !cx.t.gap(es[j] as int),
    ensures
        spine(display_formula(cx, es, fuel)) == spine(math_element(cx, es[i] as int, MathSpacing::Normal, fuel)) + seq![
            Layout::HardLine,
        ] + spine(display_formula(cx, es.subrange(i + 1, es.len() as int), fuel)),
{
    let rest = es.subrange(i + 1, es.len() as int);
    assert(rest[j - i - 1] == es[j]);
    let label = math_element(cx, es[i] as int, MathSpacing::Normal, fuel);
    let behind = display_formula(cx, rest, fuel);
    let none = Seq::<Layout>::empty();
    let parts = seq![label, Layout::HardLine, behind];
    a_concatenation_has_the_pieces_of_its_parts(parts);
    assert(spines(none) =~= none);
    assert(spine(Layout::HardLine) =~= seq![Layout::HardLine]);
    lemma_spines_push(none, label);
    lemma_spines_push(none.push(label), Layout::HardLine);
    lemma_spines_push(none.push(label).push(Layout::HardLine), behind);
    assert(parts =~= none.push(label).push(Layout::HardLine).push(behind));
    assert(spines(parts) =~= spine(label) + seq![Layout::HardLine] + spine(behind));
}

/// The parts of an inline formula stand directly behind one another: nothing is put between the
/// delimiters and the formula.
pub proof fn an_inline_formula_touches_its_delimiters(cx: LowerCtx, es: Seq<usize>, n: int, k: int, fuel: nat)
    requires
        0 <= k < n <= es.len(),
    ensures
        inline_parts(cx, es, n, fuel).len() == n,
        cx.t.tok(es[k] as int) ==> inline_parts(cx, es, n, fuel)[k] == verbatim(cx.t.txt(es[k] as int)),
    decreases n,
{
    if n > 1 {
        an_inline_formula_touches_its_delimiters(cx, es, n - 1, if k < n - 1 { k } else { 0 }, fuel);
    } else {
        assert(inline_parts(cx, es, 0, fuel).len() == 0);
    }
}

// ---- environments --------------------------------------------------------------------------

/// Element `q` of a list is one token of white space within a line.
pub open spec fn one_blank(t: &Tree, es: Seq<usize>, q: int) -> bool {
    t.tok_is(es[q] as int, SyntaxKind::Whitespace) && t.end(es[q] as int) == es[q] + 1
}

/// The first token of a body that is no white space within its line is the comment of the header's
/// line, if it is a comment.
pub proof fn a_comment_on_the_line_of_a_header_is_found(t: &Tree, es: Seq<usize>, i: int, k: int)
    requires
        0 <= i <= k < es.len(),
        forall|q: int| i <= q < k ==> #[trigger] one_blank(t, es, q),
        t.tok(es[k] as int),
        t.k(es[k] as int) != SyntaxKind::Whitespace,
        t.end(es[k] as int) == es[k] + 1,
    ensures
        leading_comment(t, es, i) == (if t.k(es[k] as int) == SyntaxKind::Comment {
            Some(es[k])
        } else {
            None
        }),
    decreases k - i,
{
    reveal_with_fuel(inline_comment_in, 3);
    if i < k {
        assert(one_blank(t, es, i));
        a_comment_on_the_line_of_a_header_is_found(t, es, i + 1, k);
    }
}

/// A comment on the line of a header stays directly behind it.
pub proof fn a_comment_stays_on_the_line_of_its_header(cx: LowerCtx, n: int, fuel: nat)
    requires
        env_split(cx, n, fuel).header_token is None,
    ensures
        env_split(cx, n, fuel).lifted matches Some(c) ==> exists|header: Layout|
            env_split(cx, n, fuel).begin == #[trigger] concat2(header, verbatim(cx.t.txt(c as int))),
{
}

/// A body that margins frame keeps the indentation of its surroundings: it stands between its header
/// and its end, with an empty line where the source has one, and before the end stands the margin
/// that was there.
pub proof fn margins_frame_a_body(begin: Layout, body: Layout, frame: Layout, end: Layout)
    requires
        !(peel_back(peel_front(body).1).1 is Nil),
    ensures
        ({
            let (lead, rest) = peel_front(body);
            let (trail, solid) = peel_back(rest);
            spine(margin_framed(begin, body, frame, end)) == spine(begin) + seq![edge(lead)] + spine(solid) + seq![
                edge(trail),
            ] + spine(frame) + spine(end)
        }),
{
    let (lead, rest) = peel_front(body);
    let (trail, solid) = peel_back(rest);
    let none = Seq::<Layout>::empty();
    assert(spines(none) =~= none);
    assert(spine(edge(lead)) =~= seq![edge(lead)]);
    assert(spine(edge(trail)) =~= seq![edge(trail)]);
    let one = none.push(begin);
    let two = one.push(edge(lead));
    let three = two.push(solid);
    let four = three.push(edge(trail));
    lemma_spines_push(none, begin);
    lemma_spines_push(one, edge(lead));
    lemma_spines_push(two, solid);
    lemma_spines_push(three, edge(trail));
    lemma_spines_push(four, frame);
    lemma_spines_push(four, end);
    lemma_spines_push(four.push(frame), end);
    if frame is Nil {
        assert(spine(frame) =~= none);
        let parts = seq![begin, edge(lead), solid, edge(trail), end];
        assert(parts =~= four.push(end));
        a_concatenation_has_the_pieces_of_its_parts(parts);
        assert(spines(parts) =~= spine(begin) + seq![edge(lead)] + spine(solid) + seq![edge(trail)] + spine(frame)
            + spine(end));
    } else {
        let parts = seq![begin, edge(lead), solid, edge(trail), frame, end];
        assert(parts =~= four.push(frame).push(end));
        a_concatenation_has_the_pieces_of_its_parts(parts);
        assert(spines(parts) =~= spine(begin) + seq![edge(lead)] + spine(solid) + seq![edge(trail)] + spine(frame)
            + spine(end));
    }
}

} // verus!

//! Scripts, groups and delimited formulas.

use vstd::prelude::*;

use crate::context::LowerCtx;
use crate::ir::{align, concat3, space, verbatim, Layout};
use crate::math::{
    left_right_parts, math_element, math_seq, script, script_parts, scripted_parts, MathSpacing,
};
use crate::syntax::{SyntaxKind, Tree};
use crate::text::trimmed;

verus! {

/// The elements before `n` that are no white space.
pub open spec fn solid_elements(t: &Tree, es: Seq<usize>, n: int) -> Seq<usize>
    decreases n,
{
    if n <= 0 {
        Seq::empty()
    } else if t.gap(es[n - 1] as int) {
        solid_elements(t, es, n - 1)
    } else {
        solid_elements(t, es, n - 1).push(es[n - 1])
    }
}

/// What an element of a base with its scripts comes to: a script is set as one, and everything else
/// as the formula around it is.
pub open spec fn scripted_piece(cx: LowerCtx, e: int, spacing: MathSpacing, fuel: nat) -> Layout {
    if cx.t.node_is(e, SyntaxKind::Subscript) || cx.t.node_is(e, SyntaxKind::Superscript) {
        script(cx, e, fuel)
    } else {
        math_element(cx, e, spacing, fuel)
    }
}

/// A base and its scripts stand directly behind one another, whatever white space there is between
/// them.
pub proof fn scripts_touch_their_base(cx: LowerCtx, es: Seq<usize>, n: int, spacing: MathSpacing, fuel: nat)
    requires
        0 <= n <= es.len(),
    ensures
        scripted_parts(cx, es, n, spacing, fuel) == solid_elements(cx.t, es, n).map_values(
            |e: usize| scripted_piece(cx, e as int, spacing, fuel),
        ),
    decreases n,
{
    let piece = |e: usize| scripted_piece(cx, e as int, spacing, fuel);
    if n > 0 {
        scripts_touch_their_base(cx, es, n - 1, spacing, fuel);
        let before = solid_elements(cx.t, es, n - 1);
        assert(before.push(es[n - 1]).map_values(piece) =~= before.map_values(piece).push(piece(es[n - 1])));
    } else {
        assert(Seq::<usize>::empty().map_values(piece) =~= Seq::<Layout>::empty());
    }
}

/// What an element of a script comes to: its sign as it stands, and everything else tight.
pub open spec fn script_piece(cx: LowerCtx, e: int, fuel: nat) -> Layout {
    if cx.t.tok_is(e, SyntaxKind::Caret) || cx.t.tok_is(e, SyntaxKind::Underscore) {
        verbatim(cx.t.txt(e))
    } else {
        math_element(cx, e, MathSpacing::Script, fuel)
    }
}

/// A script stands directly behind its sign, whatever white space there is between them, and is set
/// tight.
pub proof fn a_script_touches_its_sign(cx: LowerCtx, es: Seq<usize>, n: int, fuel: nat)
    requires
        0 <= n <= es.len(),
    ensures
        script_parts(cx, es, n, fuel) == solid_elements(cx.t, es, n).map_values(
            |e: usize| script_piece(cx, e as int, fuel),
        ),
    decreases n,
{
    let piece = |e: usize| script_piece(cx, e as int, fuel);
    if n > 0 {
        a_script_touches_its_sign(cx, es, n - 1, fuel);
        let before = solid_elements(cx.t, es, n - 1);
        assert(before.push(es[n - 1]).map_values(piece) =~= before.map_values(piece).push(piece(es[n - 1])));
    } else {
        assert(Seq::<usize>::empty().map_values(piece) =~= Seq::<Layout>::empty());
    }
}

/// How many characters the tokens before `n` have that are no white space.
pub open spec fn delimiter_length(t: &Tree, es: Seq<usize>, n: int) -> int
    decreases n,
{
    if n <= 0 {
        0
    } else if t.tok(es[n - 1] as int) && !t.gap(es[n - 1] as int) {
        delimiter_length(t, es, n - 1) + t.txt(es[n - 1] as int).len()
    } else {
        delimiter_length(t, es, n - 1)
    }
}

proof fn lemma_opening(cx: LowerCtx, es: Seq<usize>, n: int, spacing: MathSpacing, fuel: nat)
    requires
        0 <= n <= es.len(),
        forall|k: int| 0 <= k < n ==> !cx.t.node_is(#[trigger] es[k] as int, SyntaxKind::Math),
        delimiter_length(cx.t, es, n) <= usize::MAX,
    ensures
        left_right_parts(cx, es, n, spacing, fuel).1 == delimiter_length(cx.t, es, n),
        !left_right_parts(cx, es, n, spacing, fuel).2,
        delimiter_length(cx.t, es, n) >= 0,
    decreases n,
{
    if n > 0 {
        lemma_length_grows(cx.t, es, n);
        lemma_opening(cx, es, n - 1, spacing, fuel);
    }
}

proof fn lemma_length_grows(t: &Tree, es: Seq<usize>, n: int)
    requires
        n > 0,
    ensures
        delimiter_length(t, es, n - 1) <= delimiter_length(t, es, n),
{
}

/// A delimited formula has one space at each of its delimiters, and its lines are aligned behind the
/// opening one and that space. One without content has none.
pub proof fn one_space_stands_at_each_delimiter(cx: LowerCtx, es: Seq<usize>, m: int, spacing: MathSpacing, fuel: nat)
    requires
        0 <= m < es.len(),
        fuel > 0,
        cx.t.node_is(es[m] as int, SyntaxKind::Math),
        forall|k: int| 0 <= k < m ==> !cx.t.node_is(#[trigger] es[k] as int, SyntaxKind::Math),
        delimiter_length(cx.t, es, m) < usize::MAX,
    ensures
        ({
            let e = es[m] as int;
            let before = left_right_parts(cx, es, m, spacing, fuel).0;
            let parts = left_right_parts(cx, es, m + 1, spacing, fuel).0;
            let body = math_seq(cx, cx.t.kids(e), spacing, false, (fuel - 1) as nat);
            &&& trimmed(cx.t.src(e)).len() == 0 ==> parts == before
            &&& trimmed(cx.t.src(e)).len() > 0 ==> parts == before.push(
                align(delimiter_length(cx.t, es, m) + 1, concat3(space(), body, space())),
            )
        }),
{
    lemma_opening(cx, es, m, spacing, fuel);
}

/// The delimiters of a formula stand as they are, in order, without the white space between them.
pub proof fn delimiters_stand_as_they_are(cx: LowerCtx, es: Seq<usize>, n: int, spacing: MathSpacing, fuel: nat)
    requires
        0 < n <= es.len(),
        cx.t.tok(es[n - 1] as int),
    ensures
        left_right_parts(cx, es, n, spacing, fuel).0 == (if cx.t.gap(es[n - 1] as int) {
            left_right_parts(cx, es, n - 1, spacing, fuel).0
        } else {
            left_right_parts(cx, es, n - 1, spacing, fuel).0.push(verbatim(cx.t.txt(es[n - 1] as int)))
        }),
{
}

} // verus!

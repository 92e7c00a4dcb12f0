//! How the atoms of a formula are kept apart.

use vstd::prelude::*;

use crate::context::LowerCtx;
use crate::docs::first_content;
use crate::flatten::framing_stripped;
use crate::gap::{gap_end, gap_newlines, lemma_gap_end};
use crate::ir::{concat, flat_joined, flat_text, lemma_concat_reads, space, Layout};
use crate::math::{
    atoms_of, last_content, letter_text, math_element, math_line, math_seq, no_math, role_of, single_atom, starts_letter,
    word_atoms, word_surfaces, MathLine, MathSpacing, Surface,
};
use crate::syntax::{DelimiterRole, MathClass, SyntaxKind, Tree};
use crate::text::alphabetic;

verus! {

// ---- what has been printed stays -----------------------------------------------------------

/// Colons that may still get a space on their left are on the line.
spec fn placed(s: MathLine) -> bool {
    s.colon_left ==> 0 <= s.last < s.out.len()
}

/// The line `b` comes from the line `a`: what `a` holds is there, except that colons at its end may
/// still get a space on their left.
spec fn grown(a: MathLine, b: MathLine) -> bool {
    &&& placed(b)
    &&& a.out.len() <= b.out.len()
    &&& forall|q: int| 0 <= q < a.out.len() && (q != a.last || !a.colon_left) ==> #[trigger] b.out[q] == a.out[q]
    &&& (b.last == a.last && b.colon_left == a.colon_left) || b.last >= a.out.len()
}

proof fn lemma_grown_further(a: MathLine, b: MathLine, c: MathLine)
    requires
        grown(a, b),
        grown(b, c),
    ensures
        grown(a, c),
{
    assert forall|q: int| 0 <= q < a.out.len() && (q != a.last || !a.colon_left) implies #[trigger] c.out[q] == a.out[q] by {
        assert(b.out[q] == a.out[q]);
    }
}

proof fn lemma_atom_grown(s: MathLine, a: Surface, spacing: MathSpacing, line_break: bool)
    requires
        placed(s),
    ensures
        grown(s, s.with_atom(a, spacing, line_break)),
{
    reveal(MathLine::with_atom);
    reveal(MathLine::separated);
}

proof fn lemma_atoms_grown(s: MathLine, atoms: Seq<Surface>, j: int, k: int, spacing: MathSpacing, line_break: bool)
    requires
        placed(s),
        0 <= j <= k <= atoms.len(),
    ensures
        placed(s.with_atoms(atoms, j, spacing, line_break)),
        grown(s.with_atoms(atoms, j, spacing, line_break), s.with_atoms(atoms, k, spacing, line_break)),
    decreases k,
{
    if 0 < j {
        lemma_atoms_grown(s, atoms, j - 1, j - 1, spacing, line_break);
        lemma_atom_grown(s.with_atoms(atoms, j - 1, spacing, line_break), atoms[j - 1], spacing, line_break);
    }
    if j < k {
        lemma_atoms_grown(s, atoms, j, k - 1, spacing, line_break);
        let mid = s.with_atoms(atoms, k - 1, spacing, line_break);
        lemma_atom_grown(mid, atoms[k - 1], spacing, line_break);
        lemma_grown_further(s.with_atoms(atoms, j, spacing, line_break), mid, s.with_atoms(atoms, k, spacing, line_break));
    }
}

/// Reading one element that is neither white space nor a comment.
proof fn lemma_element(
    cx: LowerCtx,
    es: Seq<usize>,
    i: int,
    s: MathLine,
    spacing: MathSpacing,
    preserve: bool,
    fuel: nat,
)
    requires
        0 <= i < es.len(),
        !cx.t.gap(es[i] as int),
        !cx.t.tok_is(es[i] as int, SyntaxKind::Comment),
    ensures
        math_line(cx, es, i, s, spacing, preserve, fuel) == math_line(
            cx,
            es,
            i + 1,
            s.with_all(atoms_of(cx, es[i] as int, spacing, fuel), spacing, cx.t.node_is(es[i] as int, SyntaxKind::LineBreak)),
            spacing,
            preserve,
            fuel,
        ),
{
    reveal(math_line);
}

proof fn lemma_gap(
    cx: LowerCtx,
    es: Seq<usize>,
    i: int,
    s: MathLine,
    spacing: MathSpacing,
    preserve: bool,
    fuel: nat,
)
    requires
        0 <= i < es.len(),
        cx.t.gap(es[i] as int),
    ensures
        math_line(cx, es, i, s, spacing, preserve, fuel) == math_line(
            cx,
            es,
            gap_end(cx.t, es, i),
            s.with_gap(gap_newlines(cx.t, es, i), preserve),
            spacing,
            preserve,
            fuel,
        ),
{
    reveal(math_line);
}

proof fn lemma_comment(
    cx: LowerCtx,
    es: Seq<usize>,
    i: int,
    s: MathLine,
    spacing: MathSpacing,
    preserve: bool,
    fuel: nat,
)
    requires
        0 <= i < es.len(),
        cx.t.tok_is(es[i] as int, SyntaxKind::Comment),
    ensures
        math_line(cx, es, i, s, spacing, preserve, fuel) == math_line(
            cx,
            es,
            i + 1,
            s.with_comment(cx.t.txt(es[i] as int)),
            spacing,
            preserve,
            fuel,
        ),
{
    reveal(math_line);
}

proof fn lemma_end(
    cx: LowerCtx,
    es: Seq<usize>,
    i: int,
    s: MathLine,
    spacing: MathSpacing,
    preserve: bool,
    fuel: nat,
)
    requires
        i >= es.len(),
    ensures
        math_line(cx, es, i, s, spacing, preserve, fuel) == s,
{
    reveal(math_line);
}

/// What is on the line stays there whatever follows.
proof fn lemma_line_grown(
    cx: LowerCtx,
    es: Seq<usize>,
    i: int,
    s: MathLine,
    spacing: MathSpacing,
    preserve: bool,
    fuel: nat,
)
    requires
        0 <= i <= es.len(),
        placed(s),
    ensures
        grown(s, math_line(cx, es, i, s, spacing, preserve, fuel)),
    decreases es.len() - i,
{
    let all = math_line(cx, es, i, s, spacing, preserve, fuel);
    if i >= es.len() {
        lemma_end(cx, es, i, s, spacing, preserve, fuel);
    } else if cx.t.gap(es[i] as int) {
        let next = s.with_gap(gap_newlines(cx.t, es, i), preserve);
        lemma_gap(cx, es, i, s, spacing, preserve, fuel);
        lemma_gap_end(cx.t, es, i);
        assert(grown(s, next)) by {
            reveal(MathLine::with_gap);
        }
        lemma_line_grown(cx, es, gap_end(cx.t, es, i), next, spacing, preserve, fuel);
        lemma_grown_further(s, next, all);
    } else if cx.t.tok_is(es[i] as int, SyntaxKind::Comment) {
        let next = s.with_comment(cx.t.txt(es[i] as int));
        lemma_comment(cx, es, i, s, spacing, preserve, fuel);
        assert(grown(s, next)) by {
            reveal(MathLine::with_comment);
        }
        lemma_line_grown(cx, es, i + 1, next, spacing, preserve, fuel);
        lemma_grown_further(s, next, all);
    } else {
        let atoms = atoms_of(cx, es[i] as int, spacing, fuel);
        let line_break = cx.t.node_is(es[i] as int, SyntaxKind::LineBreak);
        let next = s.with_all(atoms, spacing, line_break);
        lemma_element(cx, es, i, s, spacing, preserve, fuel);
        assert(grown(s, next)) by {
            reveal(MathLine::with_all);
            lemma_atoms_grown(s, atoms, 0, atoms.len() as int, spacing, line_break);
        }
        lemma_line_grown(cx, es, i + 1, next, spacing, preserve, fuel);
        lemma_grown_further(s, next, all);
    }
}

/// The line in the state in which element `i` is reached.
proof fn lemma_reach(
    cx: LowerCtx,
    es: Seq<usize>,
    j: int,
    s: MathLine,
    i: int,
    spacing: MathSpacing,
    preserve: bool,
    fuel: nat,
) -> (r: MathLine)
    requires
        0 <= j <= i < es.len(),
        !cx.t.gap(es[i] as int),
        placed(s),
    ensures
        placed(r),
        math_line(cx, es, j, s, spacing, preserve, fuel) == math_line(cx, es, i, r, spacing, preserve, fuel),
    decreases i - j,
{
    if j == i {
        s
    } else if cx.t.gap(es[j] as int) {
        lemma_gap(cx, es, j, s, spacing, preserve, fuel);
        lemma_gap_end(cx.t, es, j);
        lemma_gap_stops(cx, es, j, i);
        assert(placed(s.with_gap(gap_newlines(cx.t, es, j), preserve))) by {
            reveal(MathLine::with_gap);
        }
        lemma_reach(
            cx,
            es,
            gap_end(cx.t, es, j),
            s.with_gap(gap_newlines(cx.t, es, j), preserve),
            i,
            spacing,
            preserve,
            fuel,
        )
    } else if cx.t.tok_is(es[j] as int, SyntaxKind::Comment) {
        lemma_comment(cx, es, j, s, spacing, preserve, fuel);
        assert(placed(s.with_comment(cx.t.txt(es[j] as int)))) by {
            reveal(MathLine::with_comment);
        }
        lemma_reach(cx, es, j + 1, s.with_comment(cx.t.txt(es[j] as int)), i, spacing, preserve, fuel)
    } else {
        let atoms = atoms_of(cx, es[j] as int, spacing, fuel);
        let line_break = cx.t.node_is(es[j] as int, SyntaxKind::LineBreak);
        lemma_element(cx, es, j, s, spacing, preserve, fuel);
        assert(placed(s.with_all(atoms, spacing, line_break))) by {
            reveal(MathLine::with_all);
            lemma_atoms_grown(s, atoms, 0, atoms.len() as int, spacing, line_break);
        }
        lemma_reach(
            cx,
            es,
            j + 1,
            s.with_all(atoms_of(cx, es[j] as int, spacing, fuel), spacing, cx.t.node_is(es[j] as int, SyntaxKind::LineBreak)),
            i,
            spacing,
            preserve,
            fuel,
        )
    }
}

/// White space ends before an element that is none, and where it reaches up to one.
proof fn lemma_gap_stops(cx: LowerCtx, es: Seq<usize>, j: int, i: int)
    requires
        0 <= j <= i < es.len(),
        !cx.t.gap(es[i] as int),
    ensures
        gap_end(cx.t, es, j) <= i,
        (forall|q: int| j <= q < i ==> cx.t.gap(#[trigger] es[q] as int)) ==> gap_end(cx.t, es, j) == i,
    decreases i - j,
{
    if j < i {
        lemma_gap_stops(cx, es, j + 1, i);
        if forall|q: int| j <= q < i ==> cx.t.gap(#[trigger] es[q] as int) {
            assert(cx.t.gap(es[j] as int));
        }
    }
}

// ---- two atoms that follow one another -----------------------------------------------------

/// The state `s` of a line on which the atom `a` is the last one, after the state `prev`.
spec fn behind(prev: MathLine, s: MathLine, a: Surface, spacing: MathSpacing) -> bool {
    &&& placed(s)
    &&& s.started
    &&& s.out.len() > 0
    &&& s.last == s.out.len() - 1
    &&& s.out[s.last] == a.layout
    &&& s.role == role_of(a.class, prev.class, prev.opener, a.postfix)
    &&& s.class == a.class
    &&& s.opener == (a.delimiter == Some(DelimiterRole::Open))
    &&& s.edge == (a.delimiter == Some(DelimiterRole::Open) || a.delimiter == Some(DelimiterRole::Close))
    &&& s.spaced_slash == prev.slash_spaced(a, spacing)
    &&& s.word_operator == a.word_operator
    &&& s.ends_word == a.ends_word
    &&& s.colon == a.colon
    &&& s.colon_left ==> a.colon
}

proof fn lemma_behind(prev: MathLine, a: Surface, spacing: MathSpacing, line_break: bool)
    requires
        placed(prev),
    ensures
        behind(prev, prev.with_atom(a, spacing, line_break), a, spacing),
        prev.with_atom(a, spacing, line_break).broken == line_break,
        !prev.with_atom(a, spacing, line_break).space,
        !prev.with_atom(a, spacing, line_break).newline,
{
    lemma_atom_grown(prev, a, spacing, line_break);
    reveal(MathLine::with_atom);
}

/// Elements `i` and `k` of a formula follow one another: each of them is no white space and no
/// comment, and what stands between them is white space.
pub open spec fn follow(cx: LowerCtx, es: Seq<usize>, i: int, k: int) -> bool {
    &&& 0 <= i < k < es.len()
    &&& !cx.t.gap(es[i] as int)
    &&& !cx.t.gap(es[k] as int)
    &&& !cx.t.tok_is(es[i] as int, SyntaxKind::Comment)
    &&& !cx.t.tok_is(es[k] as int, SyntaxKind::Comment)
    &&& forall|q: int| i < q < k ==> cx.t.gap(#[trigger] es[q] as int)
}

/// The state before the first atom of element `k`, and the one before the last atom of element
/// `i`, which it follows.
proof fn lemma_across_from(
    cx: LowerCtx,
    es: Seq<usize>,
    i: int,
    k: int,
    s0: MathLine,
    spacing: MathSpacing,
    preserve: bool,
    fuel: nat,
) -> (r: (MathLine, MathLine))
    requires
        placed(s0),
        math_line(cx, es, 0, no_math(), spacing, preserve, fuel) == math_line(cx, es, i, s0, spacing, preserve, fuel),
        follow(cx, es, i, k),
        atoms_of(cx, es[i] as int, spacing, fuel).len() > 0,
        atoms_of(cx, es[k] as int, spacing, fuel).len() > 0,
    ensures
        ({
            let a = atoms_of(cx, es[i] as int, spacing, fuel).last();
            let b = atoms_of(cx, es[k] as int, spacing, fuel)[0];
            let (prev, s) = r;
            &&& behind(prev, s, a, spacing)
            &&& atoms_of(cx, es[i] as int, spacing, fuel).len() == 1 ==> prev == s0
            &&& s.broken == cx.t.node_is(es[i] as int, SyntaxKind::LineBreak)
            &&& s.space == (k > i + 1)
            &&& s.newline == (k > i + 1 && preserve && gap_newlines(cx.t, es, i + 1) > 0)
            &&& grown(
                s.with_atom(b, spacing, cx.t.node_is(es[k] as int, SyntaxKind::LineBreak)),
                math_line(cx, es, 0, no_math(), spacing, preserve, fuel),
            )
        }),
{
    let first = atoms_of(cx, es[i] as int, spacing, fuel);
    let second = atoms_of(cx, es[k] as int, spacing, fuel);
    let break_i = cx.t.node_is(es[i] as int, SyntaxKind::LineBreak);
    let break_k = cx.t.node_is(es[k] as int, SyntaxKind::LineBreak);
    let all = math_line(cx, es, 0, no_math(), spacing, preserve, fuel);
    lemma_element(cx, es, i, s0, spacing, preserve, fuel);
    let n = first.len() as int;
    let prev = s0.with_atoms(first, n - 1, spacing, break_i);
    let s1 = s0.with_all(first, spacing, break_i);
    lemma_atoms_grown(s0, first, n - 1, n, spacing, break_i);
    assert(s1 == prev.with_atom(first[n - 1], spacing, break_i)) by {
        reveal(MathLine::with_all);
    }
    lemma_behind(prev, first[n - 1], spacing, break_i);
    let s2 = if k > i + 1 {
        s1.with_gap(gap_newlines(cx.t, es, i + 1), preserve)
    } else {
        s1
    };
    if k > i + 1 {
        assert(cx.t.gap(es[i + 1] as int));
        lemma_gap(cx, es, i + 1, s1, spacing, preserve, fuel);
        lemma_gap_stops(cx, es, i + 1, k);
        reveal(MathLine::with_gap);
    }
    lemma_element(cx, es, k, s2, spacing, preserve, fuel);
    let s3 = s2.with_all(second, spacing, break_k);
    let b = s2.with_atom(second[0], spacing, break_k);
    assert(grown(b, s3)) by {
        reveal(MathLine::with_all);
        lemma_atoms_grown(s2, second, 1, second.len() as int, spacing, break_k);
        assert(s2.with_atoms(second, 0, spacing, break_k) == s2);
        assert(s2.with_atoms(second, 1, spacing, break_k) == b);
    }
    lemma_line_grown(cx, es, k + 1, s3, spacing, preserve, fuel);
    lemma_grown_further(b, s3, all);
    (prev, s2)
}

/// As above, from the start of the line.
proof fn lemma_across(
    cx: LowerCtx,
    es: Seq<usize>,
    i: int,
    k: int,
    spacing: MathSpacing,
    preserve: bool,
    fuel: nat,
) -> (r: (MathLine, MathLine))
    requires
        follow(cx, es, i, k),
        atoms_of(cx, es[i] as int, spacing, fuel).len() > 0,
        atoms_of(cx, es[k] as int, spacing, fuel).len() > 0,
    ensures
        ({
            let a = atoms_of(cx, es[i] as int, spacing, fuel).last();
            let b = atoms_of(cx, es[k] as int, spacing, fuel)[0];
            let (prev, s) = r;
            &&& behind(prev, s, a, spacing)
            &&& s.broken == cx.t.node_is(es[i] as int, SyntaxKind::LineBreak)
            &&& s.space == (k > i + 1)
            &&& s.newline == (k > i + 1 && preserve && gap_newlines(cx.t, es, i + 1) > 0)
            &&& grown(
                s.with_atom(b, spacing, cx.t.node_is(es[k] as int, SyntaxKind::LineBreak)),
                math_line(cx, es, 0, no_math(), spacing, preserve, fuel),
            )
        }),
{
    let s0 = lemma_reach(cx, es, 0, no_math(), i, spacing, preserve, fuel);
    lemma_across_from(cx, es, i, k, s0, spacing, preserve, fuel)
}

/// The state in which element `i` is reached behind element `h`.
proof fn lemma_reach_behind(
    cx: LowerCtx,
    es: Seq<usize>,
    h: int,
    i: int,
    spacing: MathSpacing,
    preserve: bool,
    fuel: nat,
) -> (r: MathLine)
    requires
        follow(cx, es, h, i),
        atoms_of(cx, es[h] as int, spacing, fuel).len() > 0,
    ensures
        placed(r),
        math_line(cx, es, 0, no_math(), spacing, preserve, fuel) == math_line(cx, es, i, r, spacing, preserve, fuel),
        r.class == atoms_of(cx, es[h] as int, spacing, fuel).last().class,
        r.opener == (atoms_of(cx, es[h] as int, spacing, fuel).last().delimiter == Some(DelimiterRole::Open)),
{
    let atoms = atoms_of(cx, es[h] as int, spacing, fuel);
    let line_break = cx.t.node_is(es[h] as int, SyntaxKind::LineBreak);
    let s0 = lemma_reach(cx, es, 0, no_math(), h, spacing, preserve, fuel);
    lemma_element(cx, es, h, s0, spacing, preserve, fuel);
    let n = atoms.len() as int;
    let prev = s0.with_atoms(atoms, n - 1, spacing, line_break);
    let s1 = s0.with_all(atoms, spacing, line_break);
    lemma_atoms_grown(s0, atoms, n - 1, n, spacing, line_break);
    assert(s1 == prev.with_atom(atoms[n - 1], spacing, line_break)) by {
        reveal(MathLine::with_all);
    }
    lemma_behind(prev, atoms[n - 1], spacing, line_break);
    if i > h + 1 {
        assert(cx.t.gap(es[h + 1] as int));
        lemma_gap(cx, es, h + 1, s1, spacing, preserve, fuel);
        lemma_gap_stops(cx, es, h + 1, i);
        reveal(MathLine::with_gap);
        s1.with_gap(gap_newlines(cx.t, es, h + 1), preserve)
    } else {
        s1
    }
}

/// The state before atom `j + 1` of element `i`, and the one before atom `j`.
proof fn lemma_inside(
    cx: LowerCtx,
    es: Seq<usize>,
    i: int,
    j: int,
    spacing: MathSpacing,
    preserve: bool,
    fuel: nat,
) -> (r: (MathLine, MathLine))
    requires
        0 <= i < es.len(),
        !cx.t.gap(es[i] as int),
        !cx.t.tok_is(es[i] as int, SyntaxKind::Comment),
        0 <= j < atoms_of(cx, es[i] as int, spacing, fuel).len() - 1,
        !cx.t.node_is(es[i] as int, SyntaxKind::LineBreak),
    ensures
        ({
            let atoms = atoms_of(cx, es[i] as int, spacing, fuel);
            let (prev, s) = r;
            &&& behind(prev, s, atoms[j], spacing)
            &&& j > 0 ==> prev.class == atoms[j - 1].class && prev.opener == (atoms[j - 1].delimiter == Some(
                DelimiterRole::Open,
            ))
            &&& !s.broken
            &&& !s.space
            &&& !s.newline
            &&& grown(
                s.with_atom(atoms[j + 1], spacing, false),
                math_line(cx, es, 0, no_math(), spacing, preserve, fuel),
            )
        }),
{
    let atoms = atoms_of(cx, es[i] as int, spacing, fuel);
    let all = math_line(cx, es, 0, no_math(), spacing, preserve, fuel);
    let s0 = lemma_reach(cx, es, 0, no_math(), i, spacing, preserve, fuel);
    lemma_element(cx, es, i, s0, spacing, preserve, fuel);
    let n = atoms.len() as int;
    let prev = s0.with_atoms(atoms, j, spacing, false);
    let s = s0.with_atoms(atoms, j + 1, spacing, false);
    lemma_atoms_grown(s0, atoms, j, j + 1, spacing, false);
    lemma_behind(prev, atoms[j], spacing, false);
    if j > 0 {
        lemma_atoms_grown(s0, atoms, j - 1, j, spacing, false);
        lemma_behind(s0.with_atoms(atoms, j - 1, spacing, false), atoms[j - 1], spacing, false);
    }
    let b = s0.with_atoms(atoms, j + 2, spacing, false);
    let s3 = s0.with_all(atoms, spacing, false);
    assert(b == s.with_atom(atoms[j + 1], spacing, false));
    assert(grown(b, s3)) by {
        reveal(MathLine::with_all);
        lemma_atoms_grown(s0, atoms, j + 2, n, spacing, false);
    }
    lemma_atoms_grown(s0, atoms, n, n, spacing, false);
    assert(placed(s3));
    lemma_line_grown(cx, es, i + 1, s3, spacing, preserve, fuel);
    lemma_grown_further(b, s3, all);
    (prev, s)
}

/// On a line, `b` follows `a` with `sep` between them.
pub open spec fn printed(out: Seq<Layout>, a: Layout, sep: Seq<Layout>, b: Layout) -> bool {
    exists|p: int| 0 <= p && p + sep.len() + 1 < out.len() && #[trigger] printed_at(out, p, a, sep, b)
}

pub open spec fn printed_at(out: Seq<Layout>, p: int, a: Layout, sep: Seq<Layout>, b: Layout) -> bool {
    out[p] == a && out.subrange(p + 1, p + 1 + sep.len()) == sep && out[p + 1 + sep.len()] == b
}

/// What stands between an atom and the next one.
proof fn lemma_printed(s: MathLine, b: Surface, spacing: MathSpacing, line_break: bool, all: MathLine)
    requires
        placed(s),
        s.started,
        s.out.len() > 0,
        s.last == s.out.len() - 1,
        !s.colon,
        !s.colon_left,
        !b.colon,
        grown(s.with_atom(b, spacing, line_break), all),
    ensures
        s.broken || s.newline ==> printed(all.out, s.out[s.last], seq![Layout::HardLine], b.layout),
        !s.broken && !s.newline && s.space_before(b, spacing) ==> printed(all.out, s.out[s.last], seq![space()], b.layout),
        !s.broken && !s.newline && !s.space_before(b, spacing) ==> printed(
            all.out,
            s.out[s.last],
            Seq::empty(),
            b.layout,
        ),
{
    let next = s.with_atom(b, spacing, line_break);
    let p = s.last;
    assert(!next.colon_left && next.out == s.separated(b, spacing).push(b.layout)) by {
        reveal(MathLine::with_atom);
    }
    reveal(MathLine::separated);
    let sep = if s.broken || s.newline {
        seq![Layout::HardLine]
    } else if s.space_before(b, spacing) {
        seq![space()]
    } else {
        Seq::empty()
    };
    assert(next.out =~= s.out + sep + seq![b.layout]);
    assert(all.out[p] == next.out[p]);
    assert(all.out.subrange(p + 1, p + 1 + sep.len()) =~= sep) by {
        if sep.len() > 0 {
            assert(all.out[p + 1] == next.out[p + 1]);
        }
    }
    assert(all.out[p + 1 + sep.len()] == next.out[p + 1 + sep.len()]);
    assert(printed_at(all.out, p, s.out[p], sep, b.layout));
}

// ---- control words and letters -------------------------------------------------------------

/// Whether an element ends in a control word: its last token that is not white space is one.
pub open spec fn ends_in_control_word(t: &Tree, e: int) -> bool {
    if t.tok(e) {
        t.k(e) == SyntaxKind::ControlWord
    } else {
        exists|a: usize|
            {
                &&& e <= a < t.end(e)
                &&& #[trigger] t.tok(a as int)
                &&& t.k(a as int) == SyntaxKind::ControlWord
                &&& forall|j: int| a < j < t.end(e) && #[trigger] t.tok(j) ==> t.gap(j)
            }
    }
}

/// Whether an element starts with a letter: its first token that is not white space does.
pub open spec fn starts_with_letter(t: &Tree, e: int) -> bool {
    let letters = t.elems@[e].facts.letters@;
    if t.tok(e) {
        &&& t.txt(e).len() > 0
        &&& alphabetic(t.txt(e)[0])
        &&& t.k(e) == SyntaxKind::Word ==> letters.len() > 0 && letters[0].start == 0 && 0 < letters[0].end <= t.txt(e).len()
    } else {
        exists|b: usize|
            {
                &&& e <= b < t.end(e)
                &&& #[trigger] t.tok(b as int)
                &&& !t.gap(b as int)
                &&& t.txt(b as int).len() > 0
                &&& alphabetic(t.txt(b as int)[0])
                &&& forall|j: int| e <= j < b && #[trigger] t.tok(j) ==> t.gap(j)
            }
    }
}

proof fn lemma_first_content(t: &Tree, i: int, hi: int, b: usize)
    requires
        0 <= i <= b < hi,
        t.tok(b as int),
        !t.gap(b as int),
        forall|j: int| i <= j < b && #[trigger] t.tok(j) ==> t.gap(j),
    ensures
        first_content(t, i, hi) == Some(b),
    decreases b - i,
{
    if i < b {
        lemma_first_content(t, i + 1, hi, b);
    }
}

proof fn lemma_last_content(t: &Tree, lo: int, i: int, a: usize)
    requires
        lo <= a < i,
        t.tok(a as int),
        !t.gap(a as int),
        forall|j: int| a < j < i && #[trigger] t.tok(j) ==> t.gap(j),
    ensures
        last_content(t, lo, i) == Some(a),
    decreases i - a,
{
    if a < i - 1 {
        lemma_last_content(t, lo, i - 1, a);
    }
}

proof fn lemma_first_letter(t: &Tree, e: int, j: int)
    requires
        0 < j <= t.elems@[e].facts.letters@.len(),
    ensures
        word_surfaces(t, e, j).len() > 0,
        word_surfaces(t, e, j)[0].starts_letter == starts_letter(letter_text(t, e, t.elems@[e].facts.letters@[0])),
    decreases j,
{
    if j > 1 {
        lemma_first_letter(t, e, j - 1);
    } else {
        assert(word_surfaces(t, e, 0).len() == 0);
    }
}

/// An element that ends in a control word is one atom, which knows it.
proof fn lemma_word_end(cx: LowerCtx, e: int, spacing: MathSpacing, fuel: nat)
    requires
        ends_in_control_word(cx.t, e),
    ensures
        atoms_of(cx, e, spacing, fuel).len() == 1,
        atoms_of(cx, e, spacing, fuel)[0].ends_word,
        !atoms_of(cx, e, spacing, fuel)[0].colon,
        atoms_of(cx, e, spacing, fuel)[0].layout == math_element(cx, e, spacing, fuel),
{
    let t = cx.t;
    if !t.tok(e) {
        let a = choose|a: usize|
            {
                &&& e <= a < t.end(e)
                &&& #[trigger] t.tok(a as int)
                &&& t.k(a as int) == SyntaxKind::ControlWord
                &&& forall|j: int| a < j < t.end(e) && #[trigger] t.tok(j) ==> t.gap(j)
            };
        lemma_last_content(t, e, t.end(e), a);
    }
    reveal(single_atom);
}

/// The first atom of an element that starts with a letter knows it.
proof fn lemma_letter_start(cx: LowerCtx, e: int, spacing: MathSpacing, fuel: nat)
    requires
        0 <= e,
        starts_with_letter(cx.t, e),
    ensures
        atoms_of(cx, e, spacing, fuel).len() > 0,
        atoms_of(cx, e, spacing, fuel)[0].starts_letter,
{
    let t = cx.t;
    if t.tok_is(e, SyntaxKind::Word) {
        let letters = t.elems@[e].facts.letters@;
        lemma_first_letter(t, e, letters.len() as int);
        assert(letter_text(t, e, letters[0])[0] == t.txt(e)[0]);
        reveal(word_atoms);
    } else {
        if !t.tok(e) {
            let b = choose|b: usize|
                {
                    &&& e <= b < t.end(e)
                    &&& #[trigger] t.tok(b as int)
                    &&& !t.gap(b as int)
                    &&& t.txt(b as int).len() > 0
                    &&& alphabetic(t.txt(b as int)[0])
                    &&& forall|j: int| e <= j < b && #[trigger] t.tok(j) ==> t.gap(j)
                };
            lemma_first_content(t, e, t.end(e), b);
        }
        reveal(single_atom);
    }
}

/// White space stands between an element that ends in a control word and a letter behind it,
/// whether or not there was any in the source: a control word never takes a letter that is not
/// its own.
pub proof fn a_control_word_stays_apart_from_a_letter(
    cx: LowerCtx,
    es: Seq<usize>,
    i: int,
    k: int,
    spacing: MathSpacing,
    preserve: bool,
    fuel: nat,
)
    requires
        follow(cx, es, i, k),
        ends_in_control_word(cx.t, es[i] as int),
        starts_with_letter(cx.t, es[k] as int),
    ensures
        ({
            let out = math_line(cx, es, 0, no_math(), spacing, preserve, fuel).out;
            exists|p: int|
                {
                    &&& 0 <= p < out.len() - 2
                    &&& #[trigger] out[p] == math_element(cx, es[i] as int, spacing, fuel)
                    &&& out[p + 1] == space() || out[p + 1] == Layout::HardLine
                }
        }),
{
    lemma_word_end(cx, es[i] as int, spacing, fuel);
    lemma_letter_start(cx, es[k] as int, spacing, fuel);
    let a = atoms_of(cx, es[i] as int, spacing, fuel).last();
    let b = atoms_of(cx, es[k] as int, spacing, fuel)[0];
    let line_break = cx.t.node_is(es[k] as int, SyntaxKind::LineBreak);
    let (prev, s) = lemma_across(cx, es, i, k, spacing, preserve, fuel);
    let next = s.with_atom(b, spacing, line_break);
    let out = math_line(cx, es, 0, no_math(), spacing, preserve, fuel).out;
    let p = s.last;
    lemma_apart(s, b, spacing, line_break);
    assert(out[p] == next.out[p]);
    assert(out[p + 1] == next.out[p + 1]);
}

proof fn lemma_apart(s: MathLine, b: Surface, spacing: MathSpacing, line_break: bool)
    requires
        s.started,
        !s.colon,
        s.ends_word,
        b.starts_letter,
    ensures
        ({
            let next = s.with_atom(b, spacing, line_break);
            &&& next.out.len() == s.out.len() + 2
            &&& next.last == s.out.len() + 1
            &&& next.out.take(s.out.len() as int) == s.out
            &&& next.out[s.out.len() as int] == space() || next.out[s.out.len() as int] == Layout::HardLine
            &&& forall|q: int| 0 <= q < s.out.len() ==> #[trigger] next.out[q] == s.out[q]
        }),
{
    reveal(MathLine::with_atom);
    reveal(MathLine::separated);
    reveal(MathLine::space_before);
    let next = s.with_atom(b, spacing, line_break);
    assert(next.out.take(s.out.len() as int) =~= s.out);
}

// ---- operands and operators ----------------------------------------------------------------

/// Whether atom `b` follows atom `a` in a formula: inside one element, or across the boundary of
/// two elements that follow one another. `gap` says whether there is white space between them in
/// the source, and `broken` whether the line ends there, behind a row break or where the source
/// ends it and the layout keeps that.
pub open spec fn next_to(
    cx: LowerCtx,
    es: Seq<usize>,
    spacing: MathSpacing,
    preserve: bool,
    fuel: nat,
    a: Surface,
    b: Surface,
    gap: bool,
    broken: bool,
) -> bool {
    ||| exists|i: int, k: int|
        {
            &&& #[trigger] follow(cx, es, i, k)
            &&& atoms_of(cx, es[i] as int, spacing, fuel).len() > 0
            &&& atoms_of(cx, es[k] as int, spacing, fuel).len() > 0
            &&& a == atoms_of(cx, es[i] as int, spacing, fuel).last()
            &&& b == atoms_of(cx, es[k] as int, spacing, fuel)[0]
            &&& gap == (k > i + 1)
            &&& broken == (cx.t.node_is(es[i] as int, SyntaxKind::LineBreak) || (preserve && gap && gap_newlines(
                cx.t,
                es,
                i + 1,
            ) > 0))
        }
    ||| exists|i: int, j: int|
        {
            let atoms = atoms_of(cx, es[i] as int, spacing, fuel);
            &&& 0 <= i < es.len()
            &&& !cx.t.gap(es[i] as int)
            &&& !cx.t.tok_is(es[i] as int, SyntaxKind::Comment)
            &&& !cx.t.node_is(es[i] as int, SyntaxKind::LineBreak)
            &&& 0 <= j < atoms.len() - 1
            &&& a == #[trigger] atoms_of(cx, es[i] as int, spacing, fuel)[j]
            &&& b == atoms[j + 1]
            &&& !gap
            &&& !broken
        }
}

/// The state between two atoms that follow one another, and the one before the first of them.
proof fn lemma_next_to(
    cx: LowerCtx,
    es: Seq<usize>,
    spacing: MathSpacing,
    preserve: bool,
    fuel: nat,
    a: Surface,
    b: Surface,
    gap: bool,
    broken: bool,
) -> (r: (MathLine, MathLine))
    requires
        next_to(cx, es, spacing, preserve, fuel, a, b, gap, broken),
        !a.colon,
        !b.colon,
    ensures
        ({
            let (prev, s) = r;
            let out = math_line(cx, es, 0, no_math(), spacing, preserve, fuel).out;
            &&& behind(prev, s, a, spacing)
            &&& s.space == gap
            &&& broken ==> printed(out, a.layout, seq![Layout::HardLine], b.layout)
            &&& !broken && s.space_before(b, spacing) ==> printed(out, a.layout, seq![space()], b.layout)
            &&& !broken && !s.space_before(b, spacing) ==> printed(out, a.layout, Seq::empty(), b.layout)
        }),
{
    let all = math_line(cx, es, 0, no_math(), spacing, preserve, fuel);
    if exists|i: int, k: int|
        {
            &&& #[trigger] follow(cx, es, i, k)
            &&& atoms_of(cx, es[i] as int, spacing, fuel).len() > 0
            &&& atoms_of(cx, es[k] as int, spacing, fuel).len() > 0
            &&& a == atoms_of(cx, es[i] as int, spacing, fuel).last()
            &&& b == atoms_of(cx, es[k] as int, spacing, fuel)[0]
            &&& gap == (k > i + 1)
            &&& broken == (cx.t.node_is(es[i] as int, SyntaxKind::LineBreak) || (preserve && gap && gap_newlines(
                cx.t,
                es,
                i + 1,
            ) > 0))
        } {
        let (i, k) = choose|i: int, k: int|
            {
                &&& #[trigger] follow(cx, es, i, k)
                &&& atoms_of(cx, es[i] as int, spacing, fuel).len() > 0
                &&& atoms_of(cx, es[k] as int, spacing, fuel).len() > 0
                &&& a == atoms_of(cx, es[i] as int, spacing, fuel).last()
                &&& b == atoms_of(cx, es[k] as int, spacing, fuel)[0]
                &&& gap == (k > i + 1)
                &&& broken == (cx.t.node_is(es[i] as int, SyntaxKind::LineBreak) || (preserve && gap && gap_newlines(
                    cx.t,
                    es,
                    i + 1,
                ) > 0))
            };
        let (prev, s) = lemma_across(cx, es, i, k, spacing, preserve, fuel);
        lemma_printed(s, b, spacing, cx.t.node_is(es[k] as int, SyntaxKind::LineBreak), all);
        (prev, s)
    } else {
        let (i, j) = choose|i: int, j: int|
            {
                let atoms = atoms_of(cx, es[i] as int, spacing, fuel);
                &&& 0 <= i < es.len()
                &&& !cx.t.gap(es[i] as int)
                &&& !cx.t.tok_is(es[i] as int, SyntaxKind::Comment)
                &&& !cx.t.node_is(es[i] as int, SyntaxKind::LineBreak)
                &&& 0 <= j < atoms.len() - 1
                &&& a == #[trigger] atoms_of(cx, es[i] as int, spacing, fuel)[j]
                &&& b == atoms[j + 1]
                &&& !gap
                &&& !broken
            };
        let (prev, s) = lemma_inside(cx, es, i, j, spacing, preserve, fuel);
        lemma_printed(s, b, spacing, false, all);
        (prev, s)
    }
}

/// A plain term: neither an operator, nor a slash, nor colons that may start a relation.
pub open spec fn term(a: Surface) -> bool {
    a.class != MathClass::Bin && a.class != MathClass::Rel && !a.postfix && !a.colon && !a.slash && !a.spaced_slash
}

/// The line ends between two atoms where a row break says so, or where it does in the source and
/// the layout keeps that.
pub proof fn lines_of_a_formula_end_where_they_are_broken(
    cx: LowerCtx,
    es: Seq<usize>,
    spacing: MathSpacing,
    preserve: bool,
    fuel: nat,
    a: Surface,
    b: Surface,
    gap: bool,
)
    requires
        next_to(cx, es, spacing, preserve, fuel, a, b, gap, true),
        !a.colon,
        !b.colon,
    ensures
        printed(
            math_line(cx, es, 0, no_math(), spacing, preserve, fuel).out,
            a.layout,
            seq![Layout::HardLine],
            b.layout,
        ),
{
    let (prev, s) = lemma_next_to(cx, es, spacing, preserve, fuel, a, b, gap, true);
}

/// Between two terms, the gap of the source is printed as one space, however wide it is. Without a
/// gap the terms touch, unless a control word would take a letter that is not its own.
pub proof fn a_gap_between_two_terms_is_one_space(
    cx: LowerCtx,
    es: Seq<usize>,
    preserve: bool,
    fuel: nat,
    a: Surface,
    b: Surface,
    gap: bool,
)
    requires
        next_to(cx, es, MathSpacing::Normal, preserve, fuel, a, b, gap, false),
        term(a),
        term(b),
    ensures
        ({
            let out = math_line(cx, es, 0, no_math(), MathSpacing::Normal, preserve, fuel).out;
            if gap || (a.ends_word && b.starts_letter) {
                printed(out, a.layout, seq![space()], b.layout)
            } else {
                printed(out, a.layout, Seq::empty(), b.layout)
            }
        }),
{
    let (prev, s) = lemma_next_to(cx, es, MathSpacing::Normal, preserve, fuel, a, b, gap, false);
    reveal(MathLine::space_before);
    reveal(MathLine::slash_spaced);
}

/// In a script, a gap between two terms is kept as one space as well, except at a delimiter, where
/// the terms touch. A control-word operator has a space on either side.
pub proof fn terms_of_a_script_touch_at_delimiters(
    cx: LowerCtx,
    es: Seq<usize>,
    preserve: bool,
    fuel: nat,
    a: Surface,
    b: Surface,
    gap: bool,
)
    requires
        next_to(cx, es, MathSpacing::Script, preserve, fuel, a, b, gap, false),
        term(a),
        term(b),
    ensures
        ({
            let out = math_line(cx, es, 0, no_math(), MathSpacing::Script, preserve, fuel).out;
            if (a.ends_word && b.starts_letter) || a.word_operator || b.word_operator || (gap && !delimits(a) && !delimits(
                b,
            )) {
                printed(out, a.layout, seq![space()], b.layout)
            } else {
                printed(out, a.layout, Seq::empty(), b.layout)
            }
        }),
{
    let (prev, s) = lemma_next_to(cx, es, MathSpacing::Script, preserve, fuel, a, b, gap, false);
    reveal(MathLine::space_before);
    reveal(MathLine::slash_spaced);
}

/// Whether an atom opens or closes something.
pub open spec fn delimits(a: Surface) -> bool {
    a.delimiter == Some(DelimiterRole::Open) || a.delimiter == Some(DelimiterRole::Close)
}

/// Whether an operator behind this atom has no left operand.
pub open spec fn leaves_sign(a: Surface) -> bool {
    a.class == MathClass::Op || a.class == MathClass::Bin || a.class == MathClass::Rel || a.class == MathClass::Punct
        || a.delimiter == Some(DelimiterRole::Open)
}

/// One space stands on either side of a relation, and before a binary operator that has a left
/// operand, whatever the source has there.
pub proof fn one_space_stands_around_operators(
    cx: LowerCtx,
    es: Seq<usize>,
    preserve: bool,
    fuel: nat,
    a: Surface,
    b: Surface,
    gap: bool,
)
    requires
        next_to(cx, es, MathSpacing::Normal, preserve, fuel, a, b, gap, false),
        !a.colon && !a.postfix,
        !b.colon && !b.postfix,
        a.class == MathClass::Rel || b.class == MathClass::Rel || (b.class == MathClass::Bin && !leaves_sign(a)),
    ensures
        printed(
            math_line(cx, es, 0, no_math(), MathSpacing::Normal, preserve, fuel).out,
            a.layout,
            seq![space()],
            b.layout,
        ),
{
    let (prev, s) = lemma_next_to(cx, es, MathSpacing::Normal, preserve, fuel, a, b, gap, false);
    reveal(MathLine::space_before);
}

/// In a script, an operator that is no control word has no space of its own: it touches its
/// neighbours even where the source has a gap.
pub proof fn operators_of_a_script_are_tight(
    cx: LowerCtx,
    es: Seq<usize>,
    preserve: bool,
    fuel: nat,
    a: Surface,
    b: Surface,
    gap: bool,
)
    requires
        next_to(cx, es, MathSpacing::Script, preserve, fuel, a, b, gap, false),
        !a.colon && !a.slash && !a.spaced_slash && !a.word_operator,
        !b.colon && !b.slash && !b.spaced_slash && !b.word_operator,
        !(a.ends_word && b.starts_letter),
        (a.class == MathClass::Rel && !a.postfix) || (b.class == MathClass::Rel && !b.postfix) || (b.class == MathClass::Bin
            && !b.postfix && !leaves_sign(a)),
    ensures
        printed(
            math_line(cx, es, 0, no_math(), MathSpacing::Script, preserve, fuel).out,
            a.layout,
            Seq::empty(),
            b.layout,
        ),
{
    let (prev, s) = lemma_next_to(cx, es, MathSpacing::Script, preserve, fuel, a, b, gap, false);
    reveal(MathLine::space_before);
    reveal(MathLine::slash_spaced);
}

/// The minus of a limit from the left touches what stands before it.
pub proof fn a_limit_from_the_left_is_tight(
    cx: LowerCtx,
    es: Seq<usize>,
    preserve: bool,
    fuel: nat,
    a: Surface,
    b: Surface,
    gap: bool,
)
    requires
        next_to(cx, es, MathSpacing::Normal, preserve, fuel, a, b, gap, false),
        !a.colon && !a.slash && !a.spaced_slash,
        !b.colon && !b.slash && !b.spaced_slash,
        a.postfix || b.postfix,
        !(a.ends_word && b.starts_letter),
    ensures
        printed(
            math_line(cx, es, 0, no_math(), MathSpacing::Normal, preserve, fuel).out,
            a.layout,
            Seq::empty(),
            b.layout,
        ),
{
    let (prev, s) = lemma_next_to(cx, es, MathSpacing::Normal, preserve, fuel, a, b, gap, false);
    reveal(MathLine::space_before);
    reveal(MathLine::slash_spaced);
}

/// A slash with space on one side in the source has space on both sides.
pub proof fn a_slash_is_spaced_on_both_sides(
    cx: LowerCtx,
    es: Seq<usize>,
    spacing: MathSpacing,
    preserve: bool,
    fuel: nat,
    a: Surface,
    b: Surface,
    gap: bool,
)
    requires
        next_to(cx, es, spacing, preserve, fuel, a, b, gap, false),
        !a.colon && !b.colon,
        a.spaced_slash || b.spaced_slash,
    ensures
        printed(
            math_line(cx, es, 0, no_math(), spacing, preserve, fuel).out,
            a.layout,
            seq![space()],
            b.layout,
        ),
{
    let (prev, s) = lemma_next_to(cx, es, spacing, preserve, fuel, a, b, gap, false);
    reveal(MathLine::space_before);
    reveal(MathLine::slash_spaced);
}

/// Whether `x` ends element `h`, `a` is element `i` and `b` starts element `k` behind it, on one
/// line.
pub open spec fn row_across(
    cx: LowerCtx,
    es: Seq<usize>,
    spacing: MathSpacing,
    preserve: bool,
    fuel: nat,
    at: (int, int, int),
    x: Surface,
    a: Surface,
    b: Surface,
) -> bool {
    let (h, i, k) = at;
    &&& follow(cx, es, h, i)
    &&& follow(cx, es, i, k)
    &&& atoms_of(cx, es[h] as int, spacing, fuel).len() > 0
    &&& atoms_of(cx, es[i] as int, spacing, fuel).len() == 1
    &&& atoms_of(cx, es[k] as int, spacing, fuel).len() > 0
    &&& x == atoms_of(cx, es[h] as int, spacing, fuel).last()
    &&& a == atoms_of(cx, es[i] as int, spacing, fuel)[0]
    &&& b == atoms_of(cx, es[k] as int, spacing, fuel)[0]
    &&& !cx.t.node_is(es[i] as int, SyntaxKind::LineBreak)
    &&& !(preserve && k > i + 1 && gap_newlines(cx.t, es, i + 1) > 0)
}

/// Whether `x`, `a` and `b` are atoms `j - 1`, `j` and `j + 1` of element `i`.
pub open spec fn row_inside(
    cx: LowerCtx,
    es: Seq<usize>,
    spacing: MathSpacing,
    fuel: nat,
    at: (int, int),
    x: Surface,
    a: Surface,
    b: Surface,
) -> bool {
    let (i, j) = at;
    let atoms = atoms_of(cx, es[i] as int, spacing, fuel);
    &&& 0 <= i < es.len()
    &&& !cx.t.gap(es[i] as int)
    &&& !cx.t.tok_is(es[i] as int, SyntaxKind::Comment)
    &&& !cx.t.node_is(es[i] as int, SyntaxKind::LineBreak)
    &&& 0 < j < atoms.len() - 1
    &&& x == atoms[j - 1]
    &&& a == atoms[j]
    &&& b == atoms[j + 1]
}

/// Whether atoms `x`, `a` and `b` follow one another on one line: inside one element, or as the
/// end of one element, a whole one and the start of a third. `gap` says whether there is white
/// space between the last two.
pub open spec fn in_a_row(
    cx: LowerCtx,
    es: Seq<usize>,
    spacing: MathSpacing,
    preserve: bool,
    fuel: nat,
    x: Surface,
    a: Surface,
    b: Surface,
    gap: bool,
) -> bool {
    ||| exists|at: (int, int, int)|
        #[trigger] row_across(cx, es, spacing, preserve, fuel, at, x, a, b) && gap == (at.2 > at.1 + 1)
    ||| !gap && exists|at: (int, int)| #[trigger] row_inside(cx, es, spacing, fuel, at, x, a, b)
}

proof fn lemma_in_a_row(
    cx: LowerCtx,
    es: Seq<usize>,
    spacing: MathSpacing,
    preserve: bool,
    fuel: nat,
    x: Surface,
    a: Surface,
    b: Surface,
    gap: bool,
) -> (r: (MathLine, MathLine))
    requires
        in_a_row(cx, es, spacing, preserve, fuel, x, a, b, gap),
        !a.colon,
        !b.colon,
    ensures
        ({
            let (prev, s) = r;
            let out = math_line(cx, es, 0, no_math(), spacing, preserve, fuel).out;
            &&& behind(prev, s, a, spacing)
            &&& prev.class == x.class
            &&& prev.opener == (x.delimiter == Some(DelimiterRole::Open))
            &&& s.space == gap
            &&& s.space_before(b, spacing) ==> printed(out, a.layout, seq![space()], b.layout)
            &&& !s.space_before(b, spacing) ==> printed(out, a.layout, Seq::empty(), b.layout)
        }),
{
    if exists|at: (int, int, int)|
        #[trigger] row_across(cx, es, spacing, preserve, fuel, at, x, a, b) && gap == (at.2 > at.1 + 1) {
        let at = choose|at: (int, int, int)|
            #[trigger] row_across(cx, es, spacing, preserve, fuel, at, x, a, b) && gap == (at.2 > at.1 + 1);
        lemma_row_across(cx, es, spacing, preserve, fuel, at, x, a, b)
    } else {
        let at = choose|at: (int, int)| #[trigger] row_inside(cx, es, spacing, fuel, at, x, a, b);
        lemma_row_inside(cx, es, spacing, preserve, fuel, at, x, a, b)
    }
}

proof fn lemma_row_across(
    cx: LowerCtx,
    es: Seq<usize>,
    spacing: MathSpacing,
    preserve: bool,
    fuel: nat,
    at: (int, int, int),
    x: Surface,
    a: Surface,
    b: Surface,
) -> (r: (MathLine, MathLine))
    requires
        row_across(cx, es, spacing, preserve, fuel, at, x, a, b),
        !a.colon,
        !b.colon,
    ensures
        ({
            let (prev, s) = r;
            let out = math_line(cx, es, 0, no_math(), spacing, preserve, fuel).out;
            &&& behind(prev, s, a, spacing)
            &&& prev.class == x.class
            &&& prev.opener == (x.delimiter == Some(DelimiterRole::Open))
            &&& s.space == (at.2 > at.1 + 1)
            &&& s.space_before(b, spacing) ==> printed(out, a.layout, seq![space()], b.layout)
            &&& !s.space_before(b, spacing) ==> printed(out, a.layout, Seq::empty(), b.layout)
        }),
{
    let (h, i, k) = at;
    let all = math_line(cx, es, 0, no_math(), spacing, preserve, fuel);
    let s0 = lemma_reach_behind(cx, es, h, i, spacing, preserve, fuel);
    let (prev, s) = lemma_across_from(cx, es, i, k, s0, spacing, preserve, fuel);
    lemma_printed(s, b, spacing, cx.t.node_is(es[k] as int, SyntaxKind::LineBreak), all);
    (prev, s)
}

proof fn lemma_row_inside(
    cx: LowerCtx,
    es: Seq<usize>,
    spacing: MathSpacing,
    preserve: bool,
    fuel: nat,
    at: (int, int),
    x: Surface,
    a: Surface,
    b: Surface,
) -> (r: (MathLine, MathLine))
    requires
        row_inside(cx, es, spacing, fuel, at, x, a, b),
        !a.colon,
        !b.colon,
    ensures
        ({
            let (prev, s) = r;
            let out = math_line(cx, es, 0, no_math(), spacing, preserve, fuel).out;
            &&& behind(prev, s, a, spacing)
            &&& prev.class == x.class
            &&& prev.opener == (x.delimiter == Some(DelimiterRole::Open))
            &&& !s.space
            &&& s.space_before(b, spacing) ==> printed(out, a.layout, seq![space()], b.layout)
            &&& !s.space_before(b, spacing) ==> printed(out, a.layout, Seq::empty(), b.layout)
        }),
{
    let (i, j) = at;
    let all = math_line(cx, es, 0, no_math(), spacing, preserve, fuel);
    let (prev, s) = lemma_inside(cx, es, i, j, spacing, preserve, fuel);
    lemma_printed(s, b, spacing, false, all);
    (prev, s)
}

/// A binary operator with a left operand has one space behind it, whatever the source has there.
pub proof fn one_space_stands_behind_a_binary_operator(
    cx: LowerCtx,
    es: Seq<usize>,
    preserve: bool,
    fuel: nat,
    x: Surface,
    a: Surface,
    b: Surface,
    gap: bool,
)
    requires
        in_a_row(cx, es, MathSpacing::Normal, preserve, fuel, x, a, b, gap),
        a.class == MathClass::Bin && !leaves_sign(x),
        !a.colon && !a.postfix,
        !b.colon && !b.postfix,
    ensures
        printed(
            math_line(cx, es, 0, no_math(), MathSpacing::Normal, preserve, fuel).out,
            a.layout,
            seq![space()],
            b.layout,
        ),
{
    let (prev, s) = lemma_in_a_row(cx, es, MathSpacing::Normal, preserve, fuel, x, a, b, gap);
    reveal(MathLine::space_before);
}

/// A sign, that is an operator without a left operand, is part of its term: the two touch where
/// the source has no gap between them, and have one space between them where it has one.
pub proof fn a_sign_stays_with_its_term(
    cx: LowerCtx,
    es: Seq<usize>,
    preserve: bool,
    fuel: nat,
    x: Surface,
    a: Surface,
    b: Surface,
    gap: bool,
)
    requires
        in_a_row(cx, es, MathSpacing::Normal, preserve, fuel, x, a, b, gap),
        a.class == MathClass::Bin && leaves_sign(x),
        !a.colon && !a.postfix && !a.slash && !a.spaced_slash,
        term(b),
    ensures
        ({
            let out = math_line(cx, es, 0, no_math(), MathSpacing::Normal, preserve, fuel).out;
            if gap || (a.ends_word && b.starts_letter) {
                printed(out, a.layout, seq![space()], b.layout)
            } else {
                printed(out, a.layout, Seq::empty(), b.layout)
            }
        }),
{
    let (prev, s) = lemma_in_a_row(cx, es, MathSpacing::Normal, preserve, fuel, x, a, b, gap);
    reveal(MathLine::space_before);
    reveal(MathLine::slash_spaced);
}

/// A sign behind a term that leaves it no left operand, such as an opening delimiter, stands next
/// to it as a term would.
pub proof fn a_sign_stands_like_a_term(
    cx: LowerCtx,
    es: Seq<usize>,
    preserve: bool,
    fuel: nat,
    a: Surface,
    b: Surface,
    gap: bool,
)
    requires
        next_to(cx, es, MathSpacing::Normal, preserve, fuel, a, b, gap, false),
        term(a) && leaves_sign(a),
        b.class == MathClass::Bin && !b.colon && !b.postfix && !b.slash && !b.spaced_slash,
    ensures
        ({
            let out = math_line(cx, es, 0, no_math(), MathSpacing::Normal, preserve, fuel).out;
            if gap || (a.ends_word && b.starts_letter) {
                printed(out, a.layout, seq![space()], b.layout)
            } else {
                printed(out, a.layout, Seq::empty(), b.layout)
            }
        }),
{
    let (prev, s) = lemma_next_to(cx, es, MathSpacing::Normal, preserve, fuel, a, b, gap, false);
    reveal(MathLine::space_before);
    reveal(MathLine::slash_spaced);
}

// ---- what is read --------------------------------------------------------------------------

proof fn lemma_joined_at(items: Seq<Layout>, p: int)
    requires
        0 <= p < items.len(),
    ensures
        flat_joined(items) == flat_joined(items.take(p)) + flat_text(items[p]) + flat_joined(items.skip(p + 1)),
    decreases items.len(),
{
    if p == items.len() - 1 {
        assert(items.take(p) =~= items.drop_last());
        assert(items.skip(p + 1) =~= Seq::<Layout>::empty());
        assert(flat_joined(items.skip(p + 1)) =~= Seq::<char>::empty());
        assert(flat_joined(items) =~= flat_joined(items.take(p)) + flat_text(items[p]) + flat_joined(items.skip(p + 1)));
    } else {
        let front = items.drop_last();
        lemma_joined_at(front, p);
        assert(front.take(p) =~= items.take(p));
        assert(items.skip(p + 1).drop_last() =~= front.skip(p + 1));
        assert(flat_joined(items) =~= flat_joined(items.take(p)) + flat_text(items[p]) + flat_joined(items.skip(p + 1)));
    }
}

/// A text holds `word` with a blank behind it.
pub open spec fn reads_apart(text: Seq<char>, word: Seq<char>) -> bool {
    exists|x: Seq<char>, y: Seq<char>| text == #[trigger] (x + word + seq![' '] + y)
}

proof fn lemma_reads_apart(parts: Seq<Layout>, p: int)
    requires
        0 <= p < parts.len() - 1,
        parts[p + 1] == space() || parts[p + 1] == Layout::HardLine,
    ensures
        reads_apart(flat_text(concat(parts)), flat_text(parts[p])),
{
    lemma_concat_reads(parts);
    lemma_joined_at(parts, p);
    let rest = parts.skip(p + 1);
    lemma_joined_at(rest, 0);
    assert(rest[0] == parts[p + 1]);
    assert(rest.take(0) =~= Seq::<Layout>::empty());
    let x = flat_joined(parts.take(p));
    let y = flat_joined(rest.skip(1));
    assert(flat_joined(rest) =~= seq![' '] + y);
    assert(flat_joined(parts) =~= x + flat_text(parts[p]) + seq![' '] + y);
}

/// A formula is the pieces of its line, and a line break behind a comment or a row break.
proof fn lemma_seq(cx: LowerCtx, es: Seq<usize>, spacing: MathSpacing, preserve: bool, fuel: nat)
    ensures
        ({
            let s = math_line(cx, framing_stripped(cx, es), 0, no_math(), spacing, preserve, fuel);
            math_seq(cx, es, spacing, preserve, fuel) == concat(
                if s.broken {
                    s.out.push(Layout::HardLine)
                } else {
                    s.out
                },
            )
        }),
{
    reveal(math_line);
}

/// In what a formula reads, a control word at the end of an element and a letter behind it have
/// white space between them.
pub proof fn a_formula_reads_its_control_words_apart(
    cx: LowerCtx,
    es: Seq<usize>,
    i: int,
    k: int,
    spacing: MathSpacing,
    preserve: bool,
    fuel: nat,
)
    requires
        follow(cx, framing_stripped(cx, es), i, k),
        ends_in_control_word(cx.t, framing_stripped(cx, es)[i] as int),
        starts_with_letter(cx.t, framing_stripped(cx, es)[k] as int),
    ensures
        reads_apart(
            flat_text(math_seq(cx, es, spacing, preserve, fuel)),
            flat_text(math_element(cx, framing_stripped(cx, es)[i] as int, spacing, fuel)),
        ),
{
    let part = framing_stripped(cx, es);
    a_control_word_stays_apart_from_a_letter(cx, part, i, k, spacing, preserve, fuel);
    let s = math_line(cx, part, 0, no_math(), spacing, preserve, fuel);
    let p = choose|p: int|
        {
            &&& 0 <= p < s.out.len() - 2
            &&& #[trigger] s.out[p] == math_element(cx, part[i] as int, spacing, fuel)
            &&& s.out[p + 1] == space() || s.out[p + 1] == Layout::HardLine
        };
    let parts = if s.broken {
        s.out.push(Layout::HardLine)
    } else {
        s.out
    };
    assert(parts[p] == s.out[p] && parts[p + 1] == s.out[p + 1]);
    lemma_reads_apart(parts, p);
    lemma_seq(cx, es, spacing, preserve, fuel);
}

} // verus!

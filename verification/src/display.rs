//! Display math.

use vstd::prelude::*;

use crate::context::{fits, in_tree, part, room, LowerCtx};
use crate::flatten::{framing_stripped, strip_virtual_dtx_framing};
use crate::gap::{gap_end, lemma_gap_end, peel_back, trim_trailing_break};
use crate::ir::{
    align, concat, concat2, concat3, concat4, flat_text, forces_break, group, indent, space, verbatim, Ir, IrList, Layout,
};
use crate::lower::{lower_node, node};
use crate::math::{
    atoms_of, clamped, clamped_sum, flat_width, lower_math_atoms, lower_math_element, lower_math_seq, math_atom_role,
    math_element, math_seq, role_of, surfaces, MathBreakKind, MathRole, MathSpacing, MathSurfaceAtom, Surface,
};
use crate::predicates::{
    all_gaps, is_all_gaps, is_label, is_label_command, leading_comment, leading_inline_comment,
};
use crate::settings::MathWrap;
use crate::syntax::{DelimiterRole, MathClass, SyntaxKind, Tree};

verus! {

// ---- pieces --------------------------------------------------------------------------------

/// One atom of a formula.
pub struct Piece {
    pub layout: Layout,
    pub role: MathRole,
    /// Whether a line may start with it.
    pub break_before: bool,
    pub colon: bool,
    pub spaced_slash: bool,
    pub slash: bool,
    pub space_before: bool,
    /// How many brackets it opens, less those that it closes.
    pub delta: int,
}

/// What is known while the pieces of a formula are collected.
pub struct Formula {
    pub pieces: Seq<Piece>,
    pub class: MathClass,
    pub opener: bool,
    pub depth: int,
    /// A condition has been reached outside of brackets.
    pub conditional: bool,
    pub space: bool,
}

pub open spec fn no_formula() -> Formula {
    Formula {
        pieces: Seq::empty(),
        class: MathClass::Rel,
        opener: false,
        depth: 0,
        conditional: false,
        space: false,
    }
}

pub open spec fn delta_of(delimiter: Option<DelimiterRole>) -> int {
    if delimiter == Some(DelimiterRole::Open) {
        1
    } else if delimiter == Some(DelimiterRole::Close) {
        -1
    } else {
        0
    }
}

impl Formula {
    /// Whether the atom makes a relation of the colons before it.
    pub open spec fn completed_by(self, a: Surface) -> bool {
        !self.space && self.pieces.len() > 0 && self.pieces.last().colon && a.equals
    }

    /// The atom goes on the last piece.
    #[verifier::opaque]
    pub open spec fn with_join(self, a: Surface) -> Formula {
        let last = self.pieces.last();
        Formula {
            pieces: self.pieces.drop_last().push(
                Piece {
                    layout: concat2(last.layout, a.layout),
                    role: MathRole::Relation,
                    colon: false,
                    delta: last.delta + delta_of(a.delimiter),
                    ..last
                },
            ),
            class: MathClass::Rel,
            opener: a.delimiter == Some(DelimiterRole::Open),
            ..self
        }
    }

    /// The atom is a piece of its own.
    #[verifier::opaque]
    pub open spec fn with_piece(self, a: Surface) -> Formula {
        let role = role_of(a.class, self.class, self.opener, a.postfix);
        Formula {
            pieces: self.pieces.push(
                Piece {
                    layout: a.layout,
                    role,
                    break_before: a.break_kind != MathBreakKind::Multiplicative && a.break_kind
                        != MathBreakKind::Conditional && !(role == MathRole::Relation && self.conditional),
                    colon: a.colon,
                    spaced_slash: a.spaced_slash,
                    slash: a.slash,
                    space_before: self.space,
                    delta: delta_of(a.delimiter),
                },
            ),
            class: a.class,
            opener: a.delimiter == Some(DelimiterRole::Open),
            depth: self.depth + delta_of(a.delimiter),
            conditional: self.conditional || (a.break_kind == MathBreakKind::Conditional && self.depth == 0),
            space: false,
        }
    }

    pub open spec fn with_atom(self, a: Surface) -> Formula {
        if self.completed_by(a) {
            self.with_join(a)
        } else {
            self.with_piece(a)
        }
    }

    pub open spec fn with_atoms(self, atoms: Seq<Surface>, k: int) -> Formula
        decreases k,
    {
        if k <= 0 || k > atoms.len() {
            self
        } else {
            self.with_atoms(atoms, k - 1).with_atom(atoms[k - 1])
        }
    }

    #[verifier::opaque]
    pub open spec fn with_all(self, atoms: Seq<Surface>) -> Formula {
        self.with_atoms(atoms, atoms.len() as int)
    }

    pub open spec fn with_gap(self) -> Formula {
        Formula { space: self.space || self.pieces.len() > 0, ..self }
    }
}

/// What is known once the elements from `i` on are behind, or nothing where the formula has
/// comments or rows.
pub open spec fn formula(cx: LowerCtx, es: Seq<usize>, i: int, s: Formula, fuel: nat) -> Option<Formula>
    decreases fuel, 65int, es.len() - i,
{
    if i < 0 || i >= es.len() {
        Some(s)
    } else {
        proof {
            lemma_gap_end(cx.t, es, i);
        }
        let e = es[i] as int;
        if cx.t.gap(e) {
            formula(cx, es, gap_end(cx.t, es, i), s.with_gap(), fuel)
        } else if cx.t.tok_is(e, SyntaxKind::Comment) || cx.t.node_is(e, SyntaxKind::LineBreak) {
            None
        } else {
            formula(cx, es, i + 1, s.with_all(atoms_of(cx, e, MathSpacing::Normal, fuel)), fuel)
        }
    }
}

/// A slash next to an operator has space around it.
#[verifier::opaque]
pub open spec fn slashes_spaced(pieces: Seq<Piece>) -> Seq<Piece> {
    Seq::new(
        pieces.len(),
        |i: int|
            Piece {
                spaced_slash: pieces[i].spaced_slash || (pieces[i].slash && ((i > 0 && !pieces[i - 1].role.like_operand())
                    || (i + 1 < pieces.len() && !pieces[i + 1].role.like_operand()))),
                ..pieces[i]
            },
    )
}

/// The pieces of a formula of at least two, or nothing.
pub open spec fn pieces_of(cx: LowerCtx, es: Seq<usize>, fuel: nat) -> Option<Seq<Piece>>
    decreases fuel, 66int, 0int,
{
    match formula(cx, framing_stripped(cx, es), 0, no_formula(), fuel) {
        Some(s) => if s.pieces.len() >= 2 {
            Some(slashes_spaced(s.pieces))
        } else {
            None
        },
        None => None,
    }
}

/// One atom of a formula.
pub struct MathPiece {
    pub ir: Ir,
    pub role: MathRole,
    pub break_before: bool,
    pub colon: bool,
    pub spaced_slash: bool,
    pub slash: bool,
    pub space_before: bool,
    pub delta: i32,
}

impl View for MathPiece {
    type V = Piece;

    open spec fn view(&self) -> Piece {
        Piece {
            layout: self.ir@,
            role: self.role,
            break_before: self.break_before,
            colon: self.colon,
            spaced_slash: self.spaced_slash,
            slash: self.slash,
            space_before: self.space_before,
            delta: self.delta as int,
        }
    }
}

/// The contents of a list of pieces.
pub open spec fn views(pieces: Seq<MathPiece>) -> Seq<Piece> {
    Seq::new(pieces.len(), |i: int| pieces[i]@)
}

/// A piece opens or closes at most two brackets, and at most one while it may still grow.
pub open spec fn deltas_small(pieces: Seq<MathPiece>) -> bool {
    forall|i: int|
        0 <= i < pieces.len() ==> -2 <= (#[trigger] pieces[i]).delta <= 2 && (pieces[i].colon ==> -1 <= pieces[i].delta
            <= 1)
}

struct FormulaState {
    pieces: Vec<MathPiece>,
    class: MathClass,
    opener: bool,
    depth: i128,
    conditional: bool,
    space: bool,
}

fn delimiter_delta(delimiter: Option<DelimiterRole>) -> (r: i32)
    ensures
        r == delta_of(delimiter),
        -1 <= r <= 1,
{
    match delimiter {
        Some(role) => match role {
            DelimiterRole::Open => 1,
            DelimiterRole::Close => -1,
            DelimiterRole::Fence => 0,
        },
        None => 0,
    }
}

impl FormulaState {
    spec fn v(&self) -> Formula {
        Formula {
            pieces: views(self.pieces@),
            class: self.class,
            opener: self.opener,
            depth: self.depth as int,
            conditional: self.conditional,
            space: self.space,
        }
    }

    spec fn ok(&self) -> bool {
        deltas_small(self.pieces@) && -self.pieces@.len() <= self.depth <= self.pieces@.len()
    }

    fn with_join(self, a: &MathSurfaceAtom) -> (r: FormulaState)
        requires
            self.ok(),
            self.pieces@.len() > 0,
            self.pieces@.last().colon,
        ensures
            r.ok(),
            r.v() == self.v().with_join(a@),
    {
        proof {
            reveal(Formula::with_join);
        }
        let delta = delimiter_delta(a.delimiter);
        let mut pieces = self.pieces;
        let ghost before = views(pieces@);
        let ghost was = pieces@;
        match pieces.pop() {
            Some(last) => {
                assert(last == was.last());
                assert(last@ == before.last());
                pieces.push(
                    MathPiece {
                        ir: Ir::concat2(last.ir, a.ir.clone()),
                        role: MathRole::Relation,
                        break_before: last.break_before,
                        colon: false,
                        spaced_slash: last.spaced_slash,
                        slash: last.slash,
                        space_before: last.space_before,
                        delta: last.delta + delta,
                    },
                );
                assert(views(pieces@) =~= before.drop_last().push(pieces@.last()@));
                assert(deltas_small(pieces@)) by {
                    assert forall|i: int| 0 <= i < pieces@.len() implies -2 <= (#[trigger] pieces@[i]).delta <= 2 && (
                    pieces@[i].colon ==> -1 <= pieces@[i].delta <= 1) by {
                        if i < pieces@.len() - 1 {
                            assert(pieces@[i] == was[i]);
                        }
                    }
                }
            },
            None => {},
        }
        FormulaState {
            pieces,
            class: MathClass::Rel,
            opener: delta == 1,
            depth: self.depth,
            conditional: self.conditional,
            space: self.space,
        }
    }

    fn with_piece(self, a: &MathSurfaceAtom) -> (r: FormulaState)
        requires
            self.ok(),
        ensures
            r.ok(),
            r.v() == self.v().with_piece(a@),
    {
        proof {
            reveal(Formula::with_piece);
        }
        let delta = delimiter_delta(a.delimiter);
        let role = math_atom_role(a.class, self.class, self.opener, a.postfix);
        let break_before = a.break_kind != MathBreakKind::Multiplicative && a.break_kind != MathBreakKind::Conditional
            && !(role == MathRole::Relation && self.conditional);
        let mut pieces = self.pieces;
        let ghost before = views(pieces@);
        let n: usize = pieces.len();
        pieces.push(
            MathPiece {
                ir: a.ir.clone(),
                role,
                break_before,
                colon: a.colon,
                spaced_slash: a.spaced_slash,
                slash: a.slash,
                space_before: self.space,
                delta,
            },
        );
        assert(views(pieces@) =~= before.push(pieces@.last()@));
        FormulaState {
            pieces,
            class: a.class,
            opener: delta == 1,
            depth: self.depth + delta as i128,
            conditional: self.conditional || (a.break_kind == MathBreakKind::Conditional && self.depth == 0),
            space: false,
        }
    }

    fn with_atom(self, a: &MathSurfaceAtom) -> (r: FormulaState)
        requires
            self.ok(),
        ensures
            r.ok(),
            r.v() == self.v().with_atom(a@),
    {
        let n: usize = self.pieces.len();
        if !self.space && n > 0 && self.pieces[n - 1].colon && a.equals {
            self.with_join(a)
        } else {
            self.with_piece(a)
        }
    }

    fn with_all(self, atoms: &Vec<MathSurfaceAtom>) -> (r: FormulaState)
        requires
            self.ok(),
        ensures
            r.ok(),
            r.v() == self.v().with_all(surfaces(atoms@)),
    {
        proof {
            reveal(surfaces);
            reveal(Formula::with_all);
        }
        let ghost before = self.v();
        let mut s = self;
        let mut k: usize = 0;
        while k < atoms.len()
            invariant
                s.ok(),
                k <= atoms@.len(),
                s.v() == before.with_atoms(surfaces(atoms@), k as int),
            decreases atoms@.len() - k,
        {
            assert(surfaces(atoms@)[k as int] == atoms@[k as int]@) by {
                reveal(surfaces);
            }
            assert(surfaces(atoms@).len() == atoms@.len()) by {
                reveal(surfaces);
            }
            s = s.with_atom(&atoms[k]);
            k = k + 1;
        }
        s
    }

    fn with_gap(self) -> (r: FormulaState)
        requires
            self.ok(),
        ensures
            r.ok(),
            r.v() == self.v().with_gap(),
    {
        let space = self.space || self.pieces.len() > 0;
        FormulaState {
            pieces: self.pieces,
            class: self.class,
            opener: self.opener,
            depth: self.depth,
            conditional: self.conditional,
            space,
        }
    }
}

fn take_piece(cx: LowerCtx, e: usize, s: FormulaState, Ghost(fuel): Ghost<nat>) -> (r: FormulaState)
    requires
        cx.ok(),
        room(cx.t, e as int, fuel),
        s.ok(),
    ensures
        r.ok(),
        r.v() == s.v().with_all(atoms_of(cx, e as int, MathSpacing::Normal, fuel)),
    decreases fuel, 64int, 0int,
{
    let atoms = lower_math_atoms(cx, e, MathSpacing::Normal, Ghost(fuel));
    s.with_all(&atoms)
}

fn space_slashes(pieces: &mut Vec<MathPiece>)
    ensures
        views(final(pieces)@) == slashes_spaced(views(old(pieces)@)),
        deltas_small(old(pieces)@) ==> deltas_small(final(pieces)@),
        final(pieces)@.len() == old(pieces)@.len(),
{
    proof {
        reveal(slashes_spaced);
    }
    let ghost all = views(pieces@);
    let ghost was = pieces@;
    let n: usize = pieces.len();
    let mut i: usize = 0;
    while i < n
        invariant
            n == pieces@.len(),
            n == all.len(),
            n == was.len(),
            i <= n,
            all == views(was),
            forall|k: int| 0 <= k < n ==> (#[trigger] pieces@[k]).delta == was[k].delta && pieces@[k].colon == was[k].colon,
            forall|k: int| 0 <= k < n ==> (#[trigger] pieces@[k]).role == all[k].role,
            forall|k: int| 0 <= k < i ==> (#[trigger] pieces@[k])@ == slashes_spaced(all)[k],
            forall|k: int| i <= k < n ==> (#[trigger] pieces@[k])@ == all[k],
        decreases n - i,
    {
        let ghost now = pieces@;
        let left = i > 0 && !pieces[i - 1].role.is_operand_like();
        let right = i + 1 < n && !pieces[i + 1].role.is_operand_like();
        let spaced = pieces[i].spaced_slash || (pieces[i].slash && (left || right));
        pieces[i].spaced_slash = spaced;
        proof {
            reveal(slashes_spaced);
            assert(now[i as int]@ == all[i as int]);
            assert forall|k: int| 0 <= k < n && k != i implies pieces@[k] == now[k] by {}
        }
        i = i + 1;
    }
    assert(views(pieces@) =~= slashes_spaced(all));
}

pub fn collect_math_pieces(cx: LowerCtx, elements: Vec<usize>, Ghost(fuel): Ghost<nat>) -> (r: Option<Vec<MathPiece>>)
    requires
        cx.ok(),
        fits(cx.t, elements@, fuel),
    ensures
        r is Some == pieces_of(cx, elements@, fuel) is Some,
        r matches Some(p) ==> Some(views(p@)) == pieces_of(cx, elements@, fuel) && p@.len() >= 2 && deltas_small(p@),
    decreases fuel, 66int, 0int,
{
    let es = strip_virtual_dtx_framing(cx, elements, Ghost(fuel));
    let mut s = FormulaState {
        pieces: Vec::new(),
        class: MathClass::Rel,
        opener: false,
        depth: 0,
        conditional: false,
        space: false,
    };
    let ghost start = no_formula();
    assert(s.v().pieces =~= start.pieces);
    let mut i: usize = 0;
    while i < es.len()
        invariant
            cx.ok(),
            es@ == framing_stripped(cx, elements@),
            fits(cx.t, es@, fuel),
            i <= es@.len(),
            s.ok(),
            start == no_formula(),
            formula(cx, es@, i as int, s.v(), fuel) == formula(cx, es@, 0, start, fuel),
        decreases es@.len() - i,
    {
        let e: usize = es[i];
        assert(room(cx.t, es@[i as int] as int, fuel));
        if cx.t.is_gap(e) {
            let (_, end) = cx.consume_gap(&es, i);
            s = s.with_gap();
            i = end;
        } else if cx.t.token_is(e, SyntaxKind::Comment) || cx.t.is_node(e, SyntaxKind::LineBreak) {
            return None;
        } else {
            s = take_piece(cx, e, s, Ghost(fuel));
            i = i + 1;
        }
    }
    let mut pieces = s.pieces;
    if pieces.len() < 2 {
        return None;
    }
    space_slashes(&mut pieces);
    assert(views(pieces@).len() == pieces@.len());
    Some(pieces)
}

// ---- a formula on lines --------------------------------------------------------------------

/// How many brackets are open before piece `k`.
pub open spec fn depth_before(pieces: Seq<Piece>, k: int) -> int
    decreases k,
{
    if k <= 0 || k > pieces.len() {
        0
    } else {
        depth_before(pieces, k - 1) + pieces[k - 1].delta
    }
}

/// What stands between piece `k` and the one before it on a line.
pub open spec fn space_sep(pieces: Seq<Piece>, k: int) -> Layout {
    let (a, b) = (pieces[k - 1], pieces[k]);
    if b.spaced_slash || a.spaced_slash {
        space()
    } else if b.role == MathRole::PostfixLeftLimit || a.role == MathRole::PostfixLeftLimit {
        Layout::Nil
    } else if b.role != MathRole::Operand || a.role != MathRole::Operand || b.space_before {
        Layout::Text(seq![' '])
    } else {
        Layout::Nil
    }
}

/// Whether a line may start with the operator `k`.
pub open spec fn breakable(pieces: Seq<Piece>, k: int) -> bool {
    pieces[k].break_before && pieces[k].role == MathRole::Binary && pieces[k - 1].role == MathRole::Operand
        && depth_before(pieces, k) == 0
}

/// Whether piece `k` is a relation that lines are aligned at.
pub open spec fn anchors(pieces: Seq<Piece>, k: int) -> bool {
    pieces[k].break_before && pieces[k].role == MathRole::Relation && depth_before(pieces, k) == 0
}

/// The first such relation from `k` on, or the end.
pub open spec fn next_anchor(pieces: Seq<Piece>, k: int) -> int
    decreases pieces.len() - k,
{
    if k < 0 || k >= pieces.len() || anchors(pieces, k) {
        k
    } else {
        next_anchor(pieces, k + 1)
    }
}

pub open spec fn break_or_sep(pieces: Seq<Piece>, k: int) -> Layout {
    if breakable(pieces, k) {
        Layout::Line
    } else {
        space_sep(pieces, k)
    }
}

/// The pieces before `hi`, with a break before each operator that allows one.
pub open spec fn broken_run(pieces: Seq<Piece>, hi: int) -> Seq<Layout>
    decreases hi,
{
    if hi <= 0 || hi > pieces.len() {
        Seq::empty()
    } else if hi == 1 {
        seq![pieces[0].layout]
    } else {
        broken_run(pieces, hi - 1).push(break_or_sep(pieces, hi - 1)).push(pieces[hi - 1].layout)
    }
}

/// The pieces before `hi` on one line.
pub open spec fn flat_run(pieces: Seq<Piece>, hi: int) -> Seq<Layout>
    decreases hi,
{
    if hi <= 0 || hi > pieces.len() {
        Seq::empty()
    } else if hi == 1 {
        seq![pieces[0].layout]
    } else {
        flat_run(pieces, hi - 1).push(space_sep(pieces, hi - 1)).push(pieces[hi - 1].layout)
    }
}

/// What stands behind a relation: the pieces from `lo` up to `hi`.
pub open spec fn right_side(pieces: Seq<Piece>, lo: int, hi: int) -> Seq<Layout>
    decreases hi - lo,
{
    if lo < 0 || hi <= lo || hi > pieces.len() {
        Seq::empty()
    } else {
        right_side(pieces, lo, hi - 1).push(break_or_sep(pieces, hi - 1)).push(pieces[hi - 1].layout)
    }
}

pub proof fn lemma_next_anchor(pieces: Seq<Piece>, k: int)
    ensures
        next_anchor(pieces, k) >= k,
        k <= pieces.len() ==> next_anchor(pieces, k) <= pieces.len(),
    decreases pieces.len() - k,
{
    if !(k < 0 || k >= pieces.len() || anchors(pieces, k)) {
        lemma_next_anchor(pieces, k + 1);
    }
}

/// The relations from `i` on, each with its right side. The right side is aligned behind the
/// relation.
pub open spec fn relations(pieces: Seq<Piece>, i: int, first: bool, before: Layout) -> Seq<Layout>
    decreases pieces.len() - i,
{
    if i < 0 || i >= pieces.len() {
        Seq::empty()
    } else {
        proof {
            lemma_next_anchor(pieces, i + 1);
        }
        let j = next_anchor(pieces, i + 1);
        let width = flat_text(pieces[i].layout).len() as int;
        seq![
            if first {
                before
            } else {
                Layout::Line
            },
            pieces[i].layout,
            group(align(clamped(width + 1), concat(right_side(pieces, i + 1, j)))),
        ] + relations(pieces, j, false, before)
    }
}

/// Whether one of the pieces before `hi` spans lines.
pub open spec fn any_breaks_before(pieces: Seq<Piece>, hi: int) -> bool {
    exists|i: int| 0 <= i < hi && forces_break((#[trigger] pieces[i]).layout)
}

/// The formula with its relations aligned at `column`. The separator before the first relation
/// is `before`.
pub open spec fn relation_layout(pieces: Seq<Piece>, anchor: int, column: int, before: Layout) -> Layout {
    align(column, concat(flat_run(pieces, anchor) + relations(pieces, anchor, true, before)))
}

/// What stands before the first relation.
pub open spec fn before_anchor(pieces: Seq<Piece>, anchor: int, multi_line: bool, break_first: bool) -> Layout {
    if multi_line {
        Layout::HardLine
    } else if break_first {
        Layout::Line
    } else if anchor > 0 {
        space_sep(pieces, anchor)
    } else {
        Layout::Nil
    }
}

/// A formula of pieces: its relations stand one under another, or under the left side where that
/// is too wide.
pub open spec fn formula_layout(pieces: Seq<Piece>) -> Layout {
    let anchor = next_anchor(pieces, 0);
    if anchor >= pieces.len() {
        group(concat(broken_run(pieces, pieces.len() as int)))
    } else {
        let multi_line = any_breaks_before(pieces, anchor);
        if anchor == 0 || multi_line {
            group(relation_layout(pieces, anchor, 0, before_anchor(pieces, anchor, multi_line, multi_line)))
        } else {
            let column = clamped(flat_text(concat(flat_run(pieces, anchor))).len() as int + 1);
            group(
                Layout::BoundedAlign {
                    aligned: Box::new(
                        relation_layout(pieces, anchor, column, before_anchor(pieces, anchor, false, false)),
                    ),
                    hanging: Box::new(relation_layout(pieces, anchor, 0, before_anchor(pieces, anchor, false, true))),
                },
            )
        }
    }
}

/// How many brackets are open before each piece.
fn depths_before(pieces: &Vec<MathPiece>) -> (r: Vec<i128>)
    requires
        deltas_small(pieces@),
    ensures
        r@.len() == pieces@.len(),
        forall|k: int| 0 <= k < r@.len() ==> (#[trigger] r@[k]) == depth_before(views(pieces@), k),
{
    let mut out: Vec<i128> = Vec::new();
    let mut depth: i128 = 0;
    let mut k: usize = 0;
    while k < pieces.len()
        invariant
            deltas_small(pieces@),
            k <= pieces@.len(),
            out@.len() == k,
            -2 * k <= depth <= 2 * k,
            depth == depth_before(views(pieces@), k as int),
            forall|j: int| 0 <= j < k ==> (#[trigger] out@[j]) == depth_before(views(pieces@), j),
        decreases pieces@.len() - k,
    {
        out.push(depth);
        assert(views(pieces@)[k as int] == pieces@[k as int]@);
        depth = depth + pieces[k].delta as i128;
        k = k + 1;
    }
    out
}

/// A formula whose depths are known.
struct Broken<'a> {
    pieces: &'a Vec<MathPiece>,
    depths: Vec<i128>,
}

impl<'a> Broken<'a> {
    spec fn v(&self) -> Seq<Piece> {
        views(self.pieces@)
    }

    spec fn ok(&self) -> bool {
        self.depths@.len() == self.pieces@.len() && forall|k: int|
            0 <= k < self.depths@.len() ==> (#[trigger] self.depths@[k]) == depth_before(views(self.pieces@), k)
    }

    fn sep(&self, k: usize) -> (r: Ir)
        requires
            0 < k < self.pieces@.len(),
        ensures
            r@ == space_sep(self.v(), k as int),
    {
        let a = &self.pieces[k - 1];
        let b = &self.pieces[k];
        if b.spaced_slash || a.spaced_slash {
            Ir::space()
        } else if b.role == MathRole::PostfixLeftLimit || a.role == MathRole::PostfixLeftLimit {
            Ir::Nil
        } else if b.role != MathRole::Operand || a.role != MathRole::Operand || b.space_before {
            Ir::text_space()
        } else {
            Ir::Nil
        }
    }

    fn is_anchor(&self, k: usize) -> (r: bool)
        requires
            self.ok(),
            k < self.pieces@.len(),
        ensures
            r == anchors(self.v(), k as int),
    {
        assert(self.depths@[k as int] == depth_before(views(self.pieces@), k as int));
        self.pieces[k].break_before && self.pieces[k].role == MathRole::Relation && self.depths[k] == 0
    }

    fn break_or_sep(&self, k: usize) -> (r: Ir)
        requires
            self.ok(),
            0 < k < self.pieces@.len(),
        ensures
            r@ == break_or_sep(self.v(), k as int),
    {
        assert(self.depths@[k as int] == depth_before(views(self.pieces@), k as int));
        if self.pieces[k].break_before && self.pieces[k].role == MathRole::Binary && self.pieces[k - 1].role
            == MathRole::Operand && self.depths[k] == 0 {
            Ir::Line
        } else {
            self.sep(k)
        }
    }

    fn next_anchor(&self, k: usize) -> (r: usize)
        requires
            self.ok(),
            k <= self.pieces@.len(),
        ensures
            r == next_anchor(self.v(), k as int),
            k <= r <= self.pieces@.len(),
    {
        let mut j: usize = k;
        while j < self.pieces.len() && !self.is_anchor(j)
            invariant
                self.ok(),
                k <= j <= self.pieces@.len(),
                next_anchor(self.v(), j as int) == next_anchor(self.v(), k as int),
            decreases self.pieces@.len() - j,
        {
            j = j + 1;
        }
        assert(self.v().len() == self.pieces@.len());
        j
    }

    fn run(&self, hi: usize, broken: bool) -> (r: IrList)
        requires
            self.ok(),
            hi <= self.pieces@.len(),
        ensures
            r@ == if broken {
                broken_run(self.v(), hi as int)
            } else {
                flat_run(self.v(), hi as int)
            },
    {
        let mut out = IrList::new();
        let mut i: usize = 0;
        while i < hi
            invariant
                self.ok(),
                i <= hi <= self.pieces@.len(),
                out@ == if broken {
                    broken_run(self.v(), i as int)
                } else {
                    flat_run(self.v(), i as int)
                },
            decreases hi - i,
        {
            assert(self.v()[i as int] == self.pieces@[i as int]@);
            if i > 0 {
                if broken {
                    out.push(self.break_or_sep(i));
                } else {
                    out.push(self.sep(i));
                }
            }
            out.push(self.pieces[i].ir.clone());
            i = i + 1;
            assert(i == 1 ==> out@ =~= seq![self.v()[0].layout]);
        }
        out
    }

    fn right_side(&self, lo: usize, hi: usize) -> (r: IrList)
        requires
            self.ok(),
            0 < lo <= hi <= self.pieces@.len(),
        ensures
            r@ == right_side(self.v(), lo as int, hi as int),
    {
        let mut out = IrList::new();
        let mut k: usize = lo;
        while k < hi
            invariant
                self.ok(),
                0 < lo <= k <= hi <= self.pieces@.len(),
                out@ == right_side(self.v(), lo as int, k as int),
            decreases hi - k,
        {
            assert(self.v()[k as int] == self.pieces@[k as int]@);
            out.push(self.break_or_sep(k));
            out.push(self.pieces[k].ir.clone());
            k = k + 1;
        }
        out
    }

    fn relation_layout(&self, anchor: usize, column: usize, before: Ir) -> (r: Ir)
        requires
            self.ok(),
            anchor < self.pieces@.len(),
        ensures
            r@ == relation_layout(self.v(), anchor as int, column as int, before@),
    {
        let mut parts = self.run(anchor, false);
        let ghost lhs = parts@;
        let ghost all = relations(self.v(), anchor as int, true, before@);
        let mut first = true;
        let mut i: usize = anchor;
        assert(parts@ + all =~= lhs + all);
        while i < self.pieces.len()
            invariant
                self.ok(),
                anchor <= i <= self.pieces@.len(),
                parts@ + relations(self.v(), i as int, first, before@) == lhs + all,
            decreases self.pieces@.len() - i,
        {
            assert(i < self.pieces.len());
            let ghost was = parts@;
            let j: usize = self.next_anchor(i + 1);
            assert(self.v()[i as int] == self.pieces@[i as int]@);
            assert(self.v().len() == self.pieces@.len());
            parts.push(
                if first {
                    before.clone()
                } else {
                    Ir::Line
                },
            );
            parts.push(self.pieces[i].ir.clone());
            let width: usize = flat_width(&self.pieces[i].ir);
            let rhs = self.right_side(i + 1, j);
            parts.push(Ir::group(Ir::align(clamped_sum(width, 1), Ir::concat(rhs))));
            proof {
                let rest = relations(self.v(), j as int, false, before@);
                assert(parts@ + rest =~= was + relations(self.v(), i as int, first, before@));
            }
            first = false;
            i = j;
        }
        assert(relations(self.v(), i as int, first, before@) =~= Seq::<Layout>::empty());
        assert(parts@ =~= lhs + all);
        Ir::align(column, Ir::concat(parts))
    }

    fn any_breaks_before(&self, hi: usize) -> (r: bool)
        requires
            hi <= self.pieces@.len(),
        ensures
            r == any_breaks_before(self.v(), hi as int),
    {
        let mut i: usize = 0;
        while i < hi
            invariant
                i <= hi <= self.pieces@.len(),
                forall|j: int| 0 <= j < i ==> !forces_break((#[trigger] self.v()[j]).layout),
            decreases hi - i,
        {
            assert(self.v()[i as int] == self.pieces@[i as int]@);
            if self.pieces[i].ir.contains_forced_break() {
                return true;
            }
            i = i + 1;
        }
        false
    }

    fn layout(&self) -> (r: Ir)
        requires
            self.ok(),
            self.pieces@.len() > 0,
        ensures
            r@ == formula_layout(self.v()),
    {
        let n: usize = self.pieces.len();
        assert(self.v().len() == n);
        let anchor: usize = self.next_anchor(0);
        if anchor >= n {
            return Ir::group(Ir::concat(self.run(n, true)));
        }
        let multi_line = self.any_breaks_before(anchor);
        if anchor == 0 || multi_line {
            let before = if multi_line {
                Ir::HardLine
            } else if anchor > 0 {
                self.sep(anchor)
            } else {
                Ir::Nil
            };
            return Ir::group(self.relation_layout(anchor, 0, before));
        }
        let column: usize = clamped_sum(flat_width(&Ir::concat(self.run(anchor, false))), 1);
        let aligned = self.relation_layout(anchor, column, self.sep(anchor));
        let hanging = self.relation_layout(anchor, 0, Ir::Line);
        Ir::group(Ir::bounded_align(aligned, hanging))
    }
}

/// A display formula that is broken at its relations and operators.
pub open spec fn display_math_body(cx: LowerCtx, es: Seq<usize>, fuel: nat) -> Layout
    decreases fuel, 67int, 0int,
{
    match pieces_of(cx, es, fuel) {
        Some(pieces) => formula_layout(pieces),
        None => math_seq(cx, es, MathSpacing::Normal, false, fuel),
    }
}

pub fn lower_display_math_body(cx: LowerCtx, es: Vec<usize>, Ghost(fuel): Ghost<nat>) -> (r: Ir)
    requires
        cx.ok(),
        fits(cx.t, es@, fuel),
    ensures
        r@ == display_math_body(cx, es@, fuel),
    decreases fuel, 67int, 0int,
{
    let copy = part(&es, 0, es.len());
    assert(copy@ =~= es@);
    match collect_math_pieces(cx, copy, Ghost(fuel)) {
        Some(pieces) => {
            let depths = depths_before(&pieces);
            let broken = Broken { pieces: &pieces, depths };
            broken.layout()
        },
        None => lower_math_seq(cx, es, MathSpacing::Normal, false, Ghost(fuel)),
    }
}

/// Where the label that a formula starts with stands, if something follows it.
pub open spec fn label_at(t: &Tree, es: Seq<usize>) -> Option<int> {
    let i = gap_end(t, es, 0);
    if 0 <= i < es.len() && is_label(t, es[i] as int) && !all_gaps(t, es.subrange(i + 1, es.len() as int)) {
        Some(i)
    } else {
        None
    }
}

fn split_leading_label(cx: LowerCtx, es: &Vec<usize>) -> (r: Option<usize>)
    requires
        in_tree(cx.t, es@),
    ensures
        r is Some == label_at(cx.t, es@) is Some,
        r matches Some(i) ==> i < es@.len() && label_at(cx.t, es@) == Some(i as int),
{
    let (_, i) = cx.consume_gap(es, 0);
    if i < es.len() && is_label_command(cx, es[i]) {
        let rest = part(es, i + 1, es.len());
        if !is_all_gaps(cx, &rest) {
            return Some(i);
        }
    }
    None
}

/// A display formula, with the label that it starts with on a line of its own.
pub open spec fn display_formula(cx: LowerCtx, es: Seq<usize>, fuel: nat) -> Layout
    decreases fuel, 68int, es.len(),
{
    match label_at(cx.t, es) {
        Some(i) => {
            proof {
                lemma_gap_end(cx.t, es, 0);
            }
            concat3(
                math_element(cx, es[i] as int, MathSpacing::Normal, fuel),
                Layout::HardLine,
                display_formula(cx, es.subrange(i + 1, es.len() as int), fuel),
            )
        },
        None => match cx.math_wrap {
            MathWrap::SingleLine => math_seq(cx, es, MathSpacing::Normal, false, fuel),
            MathWrap::Preserve => math_seq(cx, es, MathSpacing::Normal, true, fuel),
            _ => display_math_body(cx, es, fuel),
        },
    }
}

pub fn lower_display_formula_elements(cx: LowerCtx, es: Vec<usize>, Ghost(fuel): Ghost<nat>) -> (r: Ir)
    requires
        cx.ok(),
        fits(cx.t, es@, fuel),
    ensures
        r@ == display_formula(cx, es@, fuel),
    decreases fuel, 68int, es@.len(),
{
    match split_leading_label(cx, &es) {
        Some(i) => {
            assert(room(cx.t, es@[i as int] as int, fuel));
            let label = lower_math_element(cx, es[i], MathSpacing::Normal, Ghost(fuel));
            let rest = part(&es, i + 1, es.len());
            Ir::concat3(label, Ir::HardLine, lower_display_formula_elements(cx, rest, Ghost(fuel)))
        },
        None => match cx.math_wrap {
            MathWrap::Auto => lower_display_math_body(cx, es, Ghost(fuel)),
            MathWrap::Break => lower_display_math_body(cx, es, Ghost(fuel)),
            MathWrap::SingleLine => lower_math_seq(cx, es, MathSpacing::Normal, false, Ghost(fuel)),
            MathWrap::Preserve => lower_math_seq(cx, es, MathSpacing::Normal, true, Ghost(fuel)),
        },
    }
}

// ---- nodes of math -------------------------------------------------------------------------

/// The body of a formula.
pub open spec fn math_body(cx: LowerCtx, n: int, fuel: nat) -> Layout
    decreases fuel, 34int, 0int,
{
    if fuel == 0 {
        Layout::Nil
    } else {
        math_seq(cx, cx.t.kids(n), MathSpacing::Normal, false, (fuel - 1) as nat)
    }
}

pub fn lower_math_body(cx: LowerCtx, n: usize, Ghost(fuel): Ghost<nat>) -> (r: Ir)
    requires
        cx.ok(),
        room(cx.t, n as int, fuel),
    ensures
        r@ == math_body(cx, n as int, fuel),
    decreases fuel, 34int, 0int,
{
    lower_math_seq(cx, cx.children(n), MathSpacing::Normal, false, Ghost((fuel - 1) as nat))
}

/// The pieces of an inline formula before element `i`.
pub open spec fn inline_parts(cx: LowerCtx, es: Seq<usize>, i: int, fuel: nat) -> Seq<Layout>
    decreases fuel, 69int, i,
{
    if i <= 0 || i > es.len() {
        Seq::empty()
    } else {
        let e = es[i - 1] as int;
        inline_parts(cx, es, i - 1, fuel).push(
            if cx.t.tok(e) {
                verbatim(cx.t.txt(e))
            } else if cx.t.k(e) == SyntaxKind::Math {
                math_body(cx, e, fuel)
            } else {
                node(cx, e, fuel)
            },
        )
    }
}

/// An inline formula.
pub open spec fn inline_math(cx: LowerCtx, n: int, fuel: nat) -> Layout
    decreases fuel, 35int, 0int,
{
    if fuel == 0 {
        Layout::Nil
    } else {
        let es = framing_stripped(cx, cx.t.kids(n));
        concat(inline_parts(cx, es, es.len() as int, (fuel - 1) as nat))
    }
}

pub fn lower_math(cx: LowerCtx, n: usize, Ghost(fuel): Ghost<nat>) -> (r: Ir)
    requires
        cx.ok(),
        room(cx.t, n as int, fuel),
    ensures
        r@ == inline_math(cx, n as int, fuel),
    decreases fuel, 35int, 0int,
{
    let ghost less = (fuel - 1) as nat;
    let es = strip_virtual_dtx_framing(cx, cx.children(n), Ghost(less));
    let mut parts = IrList::new();
    let mut i: usize = 0;
    while i < es.len()
        invariant
            cx.ok(),
            fuel > 0,
            less == fuel - 1,
            fits(cx.t, es@, less),
            i <= es@.len(),
            parts@ == inline_parts(cx, es@, i as int, less),
        decreases es@.len() - i,
    {
        let e: usize = es[i];
        assert(room(cx.t, es@[i as int] as int, less));
        let ir = if cx.t.is_token(e) {
            Ir::verbatim(cx.t.text(e))
        } else if cx.t.kind(e) == SyntaxKind::Math {
            lower_math_body(cx, e, Ghost(less))
        } else {
            lower_node(cx, e, Ghost(less))
        };
        parts.push(ir);
        i = i + 1;
    }
    Ir::concat(parts)
}

/// The elements before `i` other than `dropped`.
pub open spec fn without_element(es: Seq<usize>, dropped: Option<usize>, i: int) -> Seq<usize>
    decreases i,
{
    if i <= 0 || i > es.len() {
        Seq::empty()
    } else if dropped == Some(es[i - 1]) {
        without_element(es, dropped, i - 1)
    } else {
        without_element(es, dropped, i - 1).push(es[i - 1])
    }
}

pub fn drop_element(t: &Tree, es: &Vec<usize>, dropped: Option<usize>, Ghost(fuel): Ghost<nat>) -> (r: Vec<usize>)
    requires
        fits(t, es@, fuel),
    ensures
        r@ == without_element(es@, dropped, es@.len() as int),
        fits(t, r@, fuel),
{
    let mut out: Vec<usize> = Vec::new();
    assert(out@ =~= Seq::<usize>::empty());
    let mut i: usize = 0;
    while i < es.len()
        invariant
            fits(t, es@, fuel),
            fits(t, out@, fuel),
            i <= es@.len(),
            out@ == without_element(es@, dropped, i as int),
        decreases es@.len() - i,
    {
        assert(room(t, es@[i as int] as int, fuel));
        let is_dropped = match dropped {
            Some(d) => d == es[i],
            None => false,
        };
        if !is_dropped {
            out.push(es[i]);
        }
        i = i + 1;
    }
    out
}

/// What is known of a display formula.
pub struct Display {
    pub open: Seq<char>,
    pub close: Seq<char>,
    pub body: Layout,
    pub empty: bool,
    /// The formula itself is behind.
    pub seen: bool,
    /// A comment stands behind the opening delimiter.
    pub commented: bool,
}

pub open spec fn no_display() -> Display {
    Display {
        open: Seq::empty(),
        close: Seq::empty(),
        body: Layout::Nil,
        empty: true,
        seen: false,
        commented: false,
    }
}

/// What is known once the formula `e` is behind. A comment behind the opening delimiter stays
/// there.
pub open spec fn with_formula(cx: LowerCtx, e: int, s: Display, fuel: nat) -> Display
    decreases fuel, 37int, 0int,
{
    let kids = cx.t.kids(e);
    let lifted = leading_comment(cx.t, seq![e as usize], 0);
    let es = without_element(kids, lifted, kids.len() as int);
    let body = if fuel == 0 {
        Layout::Nil
    } else {
        peel_back(display_formula(cx.absorbing(es), es, (fuel - 1) as nat)).1
    };
    Display {
        open: match lifted {
            Some(c) => s.open + cx.t.txt(c as int),
            None => s.open,
        },
        commented: s.commented || lifted is Some,
        empty: all_gaps(cx.t, es),
        body,
        seen: true,
        ..s
    }
}

/// What is known of a display formula once the first `i` elements are behind.
pub open spec fn display_state(cx: LowerCtx, es: Seq<usize>, i: int, fuel: nat) -> Display
    decreases fuel, 69int, i,
{
    if i <= 0 || i > es.len() {
        no_display()
    } else {
        let s = display_state(cx, es, i - 1, fuel);
        let e = es[i - 1] as int;
        if cx.t.node_is(e, SyntaxKind::Math) {
            with_formula(cx, e, s, fuel)
        } else if cx.t.gap(e) {
            s
        } else if cx.t.tok(e) {
            if s.seen {
                Display { close: s.close + cx.t.txt(e), ..s }
            } else {
                Display { open: s.open + cx.t.txt(e), ..s }
            }
        } else {
            Display { body: node(cx, e, fuel), empty: false, seen: true, ..s }
        }
    }
}

impl Display {
    /// The formula on lines of its own.
    pub open spec fn layout(self) -> Layout {
        if self.empty {
            if self.commented {
                concat3(verbatim(self.open), Layout::HardLine, verbatim(self.close))
            } else {
                concat2(verbatim(self.open), verbatim(self.close))
            }
        } else {
            concat4(
                verbatim(self.open),
                indent(concat2(Layout::HardLine, self.body)),
                Layout::HardLine,
                verbatim(self.close),
            )
        }
    }
}

/// A display formula.
pub open spec fn display_math(cx: LowerCtx, n: int, fuel: nat) -> Layout
    decreases fuel, 36int, 0int,
{
    if fuel == 0 {
        Layout::Nil
    } else {
        let es = framing_stripped(cx, cx.t.kids(n));
        display_state(cx, es, es.len() as int, (fuel - 1) as nat).layout()
    }
}

struct DisplayState {
    open: String,
    close: String,
    body: Ir,
    empty: bool,
    seen: bool,
    commented: bool,
}

impl DisplayState {
    spec fn v(&self) -> Display {
        Display {
            open: self.open@,
            close: self.close@,
            body: self.body@,
            empty: self.empty,
            seen: self.seen,
            commented: self.commented,
        }
    }

    fn layout(self) -> (r: Ir)
        ensures
            r@ == self.v().layout(),
    {
        let open = Ir::verbatim(self.open.as_str());
        let close = Ir::verbatim(self.close.as_str());
        if self.empty {
            if self.commented {
                Ir::concat3(open, Ir::HardLine, close)
            } else {
                Ir::concat2(open, close)
            }
        } else {
            Ir::concat4(open, Ir::indent(Ir::concat2(Ir::HardLine, self.body)), Ir::HardLine, close)
        }
    }
}

fn take_formula(cx: LowerCtx, e: usize, s: DisplayState, Ghost(fuel): Ghost<nat>) -> (r: DisplayState)
    requires
        cx.ok(),
        room(cx.t, e as int, fuel),
    ensures
        r.v() == with_formula(cx, e as int, s.v(), fuel),
    decreases fuel, 37int, 0int,
{
    let ghost less = (fuel - 1) as nat;
    let mut one: Vec<usize> = Vec::new();
    one.push(e);
    assert(one@ =~= seq![e]);
    let lifted = leading_inline_comment(cx, &one);
    let es = drop_element(cx.t, &cx.children(e), lifted, Ghost(less));
    let body_cx = cx.absorbing_trailing_control_newline(&es);
    let empty = is_all_gaps(cx, &es);
    let mut open = s.open;
    let mut commented = s.commented;
    match lifted {
        Some(c) => {
            open.append(cx.t.text(c));
            commented = true;
        },
        None => {},
    }
    let ir = lower_display_formula_elements(body_cx, es, Ghost(less));
    DisplayState { open, close: s.close, body: trim_trailing_break(&ir), empty, seen: true, commented }
}

pub fn lower_display_math(cx: LowerCtx, n: usize, Ghost(fuel): Ghost<nat>) -> (r: Ir)
    requires
        cx.ok(),
        room(cx.t, n as int, fuel),
    ensures
        r@ == display_math(cx, n as int, fuel),
    decreases fuel, 36int, 0int,
{
    let ghost less = (fuel - 1) as nat;
    let es = strip_virtual_dtx_framing(cx, cx.children(n), Ghost(less));
    let mut s = DisplayState {
        open: String::new(),
        close: String::new(),
        body: Ir::Nil,
        empty: true,
        seen: false,
        commented: false,
    };
    assert(s.open@ =~= Seq::<char>::empty());
    assert(s.close@ =~= Seq::<char>::empty());
    let mut i: usize = 0;
    while i < es.len()
        invariant
            cx.ok(),
            fuel > 0,
            less == fuel - 1,
            fits(cx.t, es@, less),
            i <= es@.len(),
            s.v() == display_state(cx, es@, i as int, less),
        decreases es@.len() - i,
    {
        let e: usize = es[i];
        assert(room(cx.t, es@[i as int] as int, less));
        if cx.t.is_node(e, SyntaxKind::Math) {
            s = take_formula(cx, e, s, Ghost(less));
        } else if cx.t.is_gap(e) {
        } else if cx.t.is_token(e) {
            if s.seen {
                s.close.append(cx.t.text(e));
            } else {
                s.open.append(cx.t.text(e));
            }
        } else {
            s.body = lower_node(cx, e, Ghost(less));
            s.empty = false;
            s.seen = true;
        }
        i = i + 1;
    }
    s.layout()
}

} // verus!

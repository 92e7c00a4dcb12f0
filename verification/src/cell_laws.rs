//! How a table is read: where cells and rows end, and how columns are aligned.

use vstd::prelude::*;

use crate::alignment::{column_aligns, grid_step, is_alignment, last_kid, Grid};
use crate::cells::{blank_line, multicolumn};
use crate::context::LowerCtx;
use crate::predicates::any_tok;
use crate::syntax::{ColAlign, SyntaxKind, Tree};
use crate::table::{Field, Strip};
use crate::text::{number, trimmed};

verus! {

/// A tab ends a cell: the row has one cell more, and the next one starts empty.
pub proof fn a_tab_ends_a_cell(
    cx: LowerCtx,
    inner: LowerCtx,
    math: bool,
    es: Seq<usize>,
    i: int,
    s: Grid,
    fuel: nat,
)
    requires
        0 <= i < es.len(),
        cx.t.tok_is(es[i] as int, SyntaxKind::Ampersand),
    ensures
        grid_step(cx, inner, math, es, i, s, fuel) matches Some(next) ==> {
            &&& next.items == s.items
            &&& next.cells.len() == s.cells.len() + 1
            &&& next.cells.drop_last() == s.cells
            &&& next.cells.last().block is None
            &&& next.cell.len() == 0
        },
{
    let step = grid_step(cx, inner, math, es, i, s, fuel);
    if step is Some {
        assert(step->0.cells.drop_last() =~= s.cells);
    }
}

/// A row break ends a row: the table has one row more, with the cells that were read and the one in
/// progress, and the next row starts empty.
pub proof fn a_row_break_ends_a_row(
    cx: LowerCtx,
    inner: LowerCtx,
    math: bool,
    es: Seq<usize>,
    i: int,
    s: Grid,
    fuel: nat,
)
    requires
        0 <= i < es.len(),
        cx.t.node_is(es[i] as int, SyntaxKind::LineBreak),
    ensures
        grid_step(cx, inner, math, es, i, s, fuel) matches Some(next) ==> {
            &&& next.items.len() == s.items.len() + 1
            &&& next.items.drop_last() == s.items
            &&& next.items.last() is Row
            &&& next.items.last()->Row_0.cells.len() == s.cells.len() + 1
            &&& next.items.last()->Row_0.cells.drop_last() == s.cells
            &&& next.items.last()->Row_0.line_break is Some
            &&& next.items.last()->Row_0.comment is None
            &&& next.cells.len() == 0
            &&& next.cell.len() == 0
        },
{
    let step = grid_step(cx, inner, math, es, i, s, fuel);
    if step is Some {
        assert(step->0.items.drop_last() =~= s.items);
        assert(step->0.items.last()->Row_0.cells.drop_last() =~= s.cells);
    }
}

/// Everything else goes into the cell that is being read.
pub proof fn other_elements_go_into_the_cell(
    cx: LowerCtx,
    inner: LowerCtx,
    math: bool,
    es: Seq<usize>,
    i: int,
    s: Grid,
    fuel: nat,
)
    requires
        0 <= i < es.len(),
        !cx.t.tok_is(es[i] as int, SyntaxKind::Ampersand),
        !cx.t.tok_is(es[i] as int, SyntaxKind::Comment),
        !cx.t.node_is(es[i] as int, SyntaxKind::LineBreak),
    ensures
        ({
            let next = grid_step(cx, inner, math, es, i, s, fuel);
            &&& next is Some
            &&& next->0.items == s.items
            &&& next->0.cells == s.cells
            &&& next->0.cell == s.cell.push(es[i])
        }),
{
}

/// The last row counts unless it is empty: without a cell before it and without content.
pub proof fn an_empty_last_row_is_none(s: Grid, field: Field)
    requires
        field.span >= 1,
    ensures
        s.cells.len() == 0 && field.text.len() == 0 && field.block is None && field.span == 1 ==> s.with_last(field) == s.items,
        s.cells.len() > 0 || field.text.len() > 0 || field.block is Some || field.span > 1 ==> {
            let all = s.with_last(field);
            &&& all.len() == s.items.len() + 1
            &&& all.last() is Row
            &&& all.last()->Row_0.cells == s.cells.push(field)
            &&& all.last()->Row_0.line_break is None
        },
{
}

/// A comment behind a row, on its line, belongs to the row; a line of comments and rules by itself
/// stands between the rows.
pub proof fn a_comment_on_the_line_of_a_row_belongs_to_it(s: Grid, t: &Tree, text: Seq<char>)
    requires
        s.items.len() > 0,
        s.items.last() is Row,
        s.items.last()->Row_0.comment is None,
    ensures
        !any_tok(t, s.cell, SyntaxKind::Newline) ==> {
            let next = s.with_line(t, text, false);
            &&& next.items.len() == s.items.len()
            &&& next.items.last() is Row
            &&& next.items.last()->Row_0.comment == Some(text)
            &&& next.items.last()->Row_0.cells == s.items.last()->Row_0.cells
            &&& next.items.last()->Row_0.line_break == s.items.last()->Row_0.line_break
        },
        any_tok(t, s.cell, SyntaxKind::Newline) ==> {
            let next = s.with_line(t, text, false);
            &&& next.items.len() == s.items.len() + 1
            &&& next.items.last() == Strip::Line(text)
            &&& next.items[s.items.len() - 1] == s.items.last()
        },
{
}

/// A rule stands on a line of its own between the rows.
pub proof fn a_rule_stands_between_rows(s: Grid, t: &Tree, text: Seq<char>)
    ensures
        s.with_line(t, text, true).items == s.items.push(Strip::Line(text)),
{
}

/// A cell takes one column unless it is one `multicolumn` command, which takes as many as its first
/// argument says, one at least.
pub proof fn cells_take_one_column_unless_told(t: &Tree, es: Seq<usize>)
    ensures
        multicolumn(t, es).0 >= 1,
        es.len() != 1 ==> multicolumn(t, es) == (1int, None::<ColAlign>),
        es.len() == 1 && !t.node_is(es[0] as int, SyntaxKind::Command) ==> multicolumn(t, es) == (1int, None::<ColAlign>),
        es.len() == 1 && !t.named(es[0] as int, "multicolumn"@) ==> multicolumn(t, es) == (1int, None::<ColAlign>),
        es.len() == 1 && t.node_is(es[0] as int, SyntaxKind::Command) && t.named(es[0] as int, "multicolumn"@) ==> (
        t.group_inner(es[0] as int, 0) matches Some(text) ==> (number(trimmed(text)) matches Some(k) ==> k >= 1
            ==> multicolumn(t, es).0 == k)),
{
    reveal(multicolumn);
}

/// A `multicolumn` cell is aligned as the first column of its second argument says.
pub proof fn spanning_cells_say_how_they_are_aligned(t: &Tree, es: Seq<usize>, g: usize, columns: Vec<ColAlign>)
    requires
        es.len() == 1,
        t.node_is(es[0] as int, SyntaxKind::Command),
        t.named(es[0] as int, "multicolumn"@),
        t.nth_kid(es[0] + 1, t.end(es[0] as int), SyntaxKind::Group, 1) == Some(g),
        t.elems@[g as int].facts.columns == Some(columns),
        columns@.len() > 0,
    ensures
        multicolumn(t, es).1 == Some(columns@[0]),
{
    reveal(multicolumn);
}

proof fn lemma_last_kid(t: &Tree, es: Seq<usize>, kind: SyntaxKind, n: int, i: int)
    requires
        0 <= i < n <= es.len(),
        t.node_is(es[i] as int, kind),
        forall|j: int| i < j < n ==> !t.node_is(#[trigger] es[j] as int, kind),
    ensures
        last_kid(t, es, kind, n) == Some(es[i]),
    decreases n,
{
    if i < n - 1 {
        assert(!t.node_is(es[n - 1] as int, kind));
        lemma_last_kid(t, es, kind, n - 1, i);
    }
}

/// The columns of a table are aligned as the last argument of its header says.
pub proof fn columns_are_aligned_as_the_header_says(cx: LowerCtx, n: int, b: usize, i: int, columns: Vec<ColAlign>)
    requires
        cx.t.node_is(n, SyntaxKind::Environment),
        cx.t.kid(n, SyntaxKind::Begin) == Some(b),
        is_alignment(cx, b as int),
        0 <= i < cx.t.kids(b as int).len(),
        cx.t.node_is(cx.t.kids(b as int)[i] as int, SyntaxKind::Group),
        forall|j: int|
            i < j < cx.t.kids(b as int).len() ==> !cx.t.node_is(
                #[trigger] cx.t.kids(b as int)[j] as int,
                SyntaxKind::Group,
            ),
        cx.t.elems@[cx.t.kids(b as int)[i] as int].facts.columns == Some(columns),
    ensures
        column_aligns(cx, n) == columns@,
{
    let es = cx.t.kids(b as int);
    lemma_last_kid(cx.t, es, SyntaxKind::Group, es.len() as int, i);
}

/// Line breaks stand at `a` and `b` of a list of elements, with nothing but blanks between them.
pub open spec fn empty_line_at(t: &Tree, es: Seq<usize>, a: int, b: int) -> bool {
    &&& 0 <= a < b < es.len()
    &&& t.tok_is(es[a] as int, SyntaxKind::Newline)
    &&& t.tok_is(es[b] as int, SyntaxKind::Newline)
    &&& blanks_up_to(t, es, a + 1, b)
}

/// The elements from `i` up to `b` are blanks.
pub open spec fn blanks_up_to(t: &Tree, es: Seq<usize>, i: int, b: int) -> bool {
    forall|q: int| i <= q < b ==> t.tok_is(#[trigger] es[q] as int, SyntaxKind::Whitespace)
}

/// A line break stands at `b`, with nothing but blanks from `i` up to it.
pub open spec fn break_next(t: &Tree, es: Seq<usize>, i: int, b: int) -> bool {
    i <= b < es.len() && t.tok_is(es[b] as int, SyntaxKind::Newline) && blanks_up_to(t, es, i, b)
}

proof fn lemma_empty_line(t: &Tree, es: Seq<usize>, i: int, newlines: int)
    requires
        0 <= i,
        0 <= newlines <= 1,
    ensures
        blank_line(t, es, i, newlines) <==> (exists|a: int, b: int| i <= a && #[trigger] empty_line_at(t, es, a, b)) || (
        newlines == 1 && exists|b: int| #[trigger] break_next(t, es, i, b)),
    decreases es.len() - i,
{
    if i < es.len() {
        let e = es[i] as int;
        if t.tok_is(e, SyntaxKind::Newline) {
            if newlines == 0 {
                lemma_empty_line(t, es, i + 1, 1);
                if exists|b: int| #[trigger] break_next(t, es, i + 1, b) {
                    let b = choose|b: int| #[trigger] break_next(t, es, i + 1, b);
                    assert(empty_line_at(t, es, i, b));
                }
                if exists|a: int, b: int| i <= a && #[trigger] empty_line_at(t, es, a, b) {
                    let (a, b) = choose|a: int, b: int| i <= a && #[trigger] empty_line_at(t, es, a, b);
                    if a == i {
                        assert(break_next(t, es, i + 1, b));
                    }
                }
            } else {
                assert(break_next(t, es, i, i));
            }
        } else if t.tok_is(e, SyntaxKind::Whitespace) {
            lemma_empty_line(t, es, i + 1, newlines);
            assert forall|b: int| #[trigger] break_next(t, es, i + 1, b) implies break_next(t, es, i, b) by {
                assert forall|q: int| i <= q < b implies t.tok_is(#[trigger] es[q] as int, SyntaxKind::Whitespace) by {}
            }
            assert forall|b: int| #[trigger] break_next(t, es, i, b) implies break_next(t, es, i + 1, b) by {}
            assert forall|a: int, b: int| i <= a && #[trigger] empty_line_at(t, es, a, b) implies i + 1 <= a by {}
        } else {
            lemma_empty_line(t, es, i + 1, 0);
            assert forall|b: int| !#[trigger] break_next(t, es, i, b) by {
                if break_next(t, es, i, b) {
                    assert(b != i);
                    assert(t.tok_is(es[i] as int, SyntaxKind::Whitespace));
                }
            }
            assert forall|a: int, b: int| i <= a && #[trigger] empty_line_at(t, es, a, b) implies i + 1 <= a by {}
        }
    }
}

/// A cell has an empty line exactly where two of its line breaks have nothing but blanks between
/// them.
pub proof fn an_empty_line_is_two_line_breaks(t: &Tree, es: Seq<usize>)
    ensures
        blank_line(t, es, 0, 0) <==> exists|a: int, b: int| #[trigger] empty_line_at(t, es, a, b),
{
    lemma_empty_line(t, es, 0, 0);
    if exists|a: int, b: int| #[trigger] empty_line_at(t, es, a, b) {
        let (a, b) = choose|a: int, b: int| #[trigger] empty_line_at(t, es, a, b);
        assert(0 <= a && empty_line_at(t, es, a, b));
    }
}

} // verus!

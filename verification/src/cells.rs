//! The cells of a table.

use vstd::prelude::*;

use crate::context::{fits, in_tree, part, room, LowerCtx};
use crate::flatten::{solid_core, trim_gaps};
use crate::ir::{concat, flat_text, forces_break, Ir, IrList, Layout};
use crate::lower::{lower_element_stream, stream};
use crate::math::{
    clamped, clamped_sum, lower_math_element, lower_math_seq, math_element, math_seq, MathSpacing,
};
use crate::predicates::{any_tok, any_token, has_verbatim_body, verbatim_body};
use crate::syntax::{ColAlign, SyntaxKind, Tree};
use crate::table::{Block, BlockCell, Cell, Field};
use crate::text::{number, parse_number, trim, trimmed};

verus! {

pub fn copy_elements(es: &Vec<usize>) -> (r: Vec<usize>)
    ensures
        r@ == es@,
{
    let r = part(es, 0, es.len());
    assert(es@.subrange(0, es@.len() as int) =~= es@);
    r
}

// ---- cells ---------------------------------------------------------------------------------

/// How many columns the element takes where it is a cell, and how it is aligned.
#[verifier::opaque]
pub open spec fn multicolumn(t: &Tree, es: Seq<usize>) -> (int, Option<ColAlign>) {
    if es.len() != 1 || !t.node_is(es[0] as int, SyntaxKind::Command) || !t.named(es[0] as int, "multicolumn"@) {
        (1, None)
    } else {
        let n = es[0] as int;
        let span = match t.group_inner(n, 0) {
            Some(text) => match number(trimmed(text)) {
                Some(k) => if k >= 1 {
                    k as int
                } else {
                    1
                },
                None => 1,
            },
            None => 1,
        };
        let align = match t.nth_kid(n + 1, t.end(n), SyntaxKind::Group, 1) {
            Some(g) => first_column(t, g as int),
            None => None,
        };
        (span, align)
    }
}

/// How the first column of a column specification is aligned.
pub open spec fn first_column(t: &Tree, g: int) -> Option<ColAlign> {
    match t.elems@[g].facts.columns {
        Some(columns) => if columns@.len() > 0 {
            Some(columns@[0])
        } else {
            None
        },
        None => None,
    }
}

fn detect_multicolumn(cx: LowerCtx, es: &Vec<usize>) -> (r: (usize, Option<ColAlign>))
    requires
        cx.ok(),
        in_tree(cx.t, es@),
    ensures
        (r.0 as int, r.1) == multicolumn(cx.t, es@),
        r.0 >= 1,
{
    proof {
        reveal(LowerCtx::ok);
        reveal(multicolumn);
    }
    if es.len() != 1 || !cx.t.is_node(es[0], SyntaxKind::Command) || !cx.t.is_named(es[0], "multicolumn") {
        return (1, None);
    }
    let n: usize = es[0];
    let span: usize = match cx.t.nth_group_inner(n, 0) {
        Some(text) => match parse_number(trim(text.as_str())) {
            Some(k) => if k >= 1 {
                k
            } else {
                1
            },
            None => 1,
        },
        None => 1,
    };
    let align = match cx.t.nth_child(n, SyntaxKind::Group, 1) {
        Some(g) => match &cx.t.elems[g].facts.columns {
            Some(columns) => if columns.len() > 0 {
                Some(columns[0])
            } else {
                None
            },
            None => None,
        },
        None => None,
    };
    (span, align)
}

/// Whether an empty line stands among the elements from `i` on, `newlines` line breaks having
/// been seen directly before them.
pub open spec fn blank_line(t: &Tree, es: Seq<usize>, i: int, newlines: int) -> bool
    decreases es.len() - i,
{
    if i < 0 || i >= es.len() {
        false
    } else if t.tok_is(es[i] as int, SyntaxKind::Newline) {
        newlines >= 1 || blank_line(t, es, i + 1, newlines + 1)
    } else if t.tok_is(es[i] as int, SyntaxKind::Whitespace) {
        blank_line(t, es, i + 1, newlines)
    } else {
        blank_line(t, es, i + 1, 0)
    }
}

pub fn cell_has_blank_line(cx: LowerCtx, es: &Vec<usize>) -> (r: bool)
    requires
        in_tree(cx.t, es@),
    ensures
        r == blank_line(cx.t, es@, 0, 0),
{
    let mut newlines: usize = 0;
    let mut i: usize = 0;
    while i < es.len()
        invariant
            in_tree(cx.t, es@),
            i <= es@.len(),
            newlines <= 1,
            blank_line(cx.t, es@, i as int, newlines as int) == blank_line(cx.t, es@, 0, 0),
        decreases es@.len() - i,
    {
        if cx.t.token_is(es[i], SyntaxKind::Newline) {
            newlines = newlines + 1;
            if newlines >= 2 {
                return true;
            }
        } else if !cx.t.token_is(es[i], SyntaxKind::Whitespace) {
            newlines = 0;
        }
        i = i + 1;
    }
    false
}

/// Whether an environment that is reproduced byte by byte is the node or stands in it.
pub open spec fn has_verbatim_env(t: &Tree, n: int) -> bool {
    exists|i: int| n <= i < t.end(n) && #[trigger] t.node_is(i, SyntaxKind::Environment) && verbatim_body(t, i)
}

/// Whether one of the elements is such a node.
pub open spec fn any_verbatim_env(t: &Tree, es: Seq<usize>) -> bool {
    exists|k: int| 0 <= k < es.len() && !t.tok(#[trigger] es[k] as int) && has_verbatim_env(t, es[k] as int)
}

fn contains_verbatim_env(cx: LowerCtx, n: usize) -> (r: bool)
    requires
        cx.ok(),
        n < cx.t.n(),
    ensures
        r == has_verbatim_env(cx.t, n as int),
{
    proof {
        reveal(LowerCtx::ok);
    }
    let hi: usize = cx.t.subtree_end(n);
    assert(cx.t.end(n as int) <= cx.t.n());
    let mut i: usize = n;
    while i < hi
        invariant
            cx.ok(),
            n <= i,
            hi == cx.t.end(n as int) <= cx.t.n(),
            forall|j: int|
                n <= j < i ==> !(#[trigger] cx.t.node_is(j, SyntaxKind::Environment) && verbatim_body(cx.t, j)),
        decreases hi - i,
    {
        if cx.t.is_node(i, SyntaxKind::Environment) && has_verbatim_body(cx, i) {
            assert(cx.t.node_is(i as int, SyntaxKind::Environment));
            return true;
        }
        i = i + 1;
    }
    false
}

fn any_contains_verbatim_env(cx: LowerCtx, es: &Vec<usize>) -> (r: bool)
    requires
        cx.ok(),
        in_tree(cx.t, es@),
    ensures
        r == any_verbatim_env(cx.t, es@),
{
    let mut k: usize = 0;
    while k < es.len()
        invariant
            cx.ok(),
            in_tree(cx.t, es@),
            k <= es@.len(),
            forall|j: int|
                0 <= j < k ==> !(!cx.t.tok(#[trigger] es@[j] as int) && has_verbatim_env(cx.t, es@[j] as int)),
        decreases es@.len() - k,
    {
        if !cx.t.is_token(es[k]) && contains_verbatim_env(cx, es[k]) {
            return true;
        }
        k = k + 1;
    }
    false
}

/// The first node from `i` on that spans lines.
pub open spec fn first_broken(cx: LowerCtx, es: Seq<usize>, i: int, fuel: nat) -> Option<int>
    decreases fuel, 67int, es.len() - i,
{
    if i < 0 || i >= es.len() {
        None
    } else if !cx.t.tok(es[i] as int) && forces_break(math_element(cx, es[i] as int, MathSpacing::Normal, fuel)) {
        Some(i)
    } else {
        first_broken(cx, es, i + 1, fuel)
    }
}

fn find_first_broken(cx: LowerCtx, es: &Vec<usize>, Ghost(fuel): Ghost<nat>) -> (r: Option<usize>)
    requires
        cx.ok(),
        fits(cx.t, es@, fuel),
    ensures
        r is Some == first_broken(cx, es@, 0, fuel) is Some,
        r matches Some(i) ==> first_broken(cx, es@, 0, fuel) == Some(i as int) && i < es@.len(),
    decreases fuel, 67int, 0int,
{
    let mut i: usize = 0;
    while i < es.len()
        invariant
            cx.ok(),
            fits(cx.t, es@, fuel),
            i <= es@.len(),
            first_broken(cx, es@, i as int, fuel) == first_broken(cx, es@, 0, fuel),
        decreases es@.len() - i,
    {
        assert(room(cx.t, es@[i as int] as int, fuel));
        if !cx.t.is_token(es[i]) && lower_math_element(cx, es[i], MathSpacing::Normal, Ghost(fuel)).contains_forced_break() {
            return Some(i);
        }
        i = i + 1;
    }
    None
}

/// A line break among the pieces is a space.
#[verifier::opaque]
pub open spec fn softened(parts: Seq<Layout>) -> Seq<Layout> {
    Seq::new(
        parts.len(),
        |i: int| if parts[i] is HardLine {
            Layout::Line
        } else {
            parts[i]
        },
    )
}

fn soften(parts: IrList) -> (r: IrList)
    ensures
        r@ == softened(parts@),
{
    proof {
        reveal(softened);
    }
    let ghost all = parts@;
    let mut out = parts;
    let mut i: usize = 0;
    while i < out.len()
        invariant
            i <= out@.len(),
            out@.len() == all.len(),
            forall|j: int|
                0 <= j < i ==> #[trigger] out@[j] == (if all[j] is HardLine {
                    Layout::Line
                } else {
                    all[j]
                }),
            forall|j: int| i <= j < all.len() ==> #[trigger] out@[j] == all[j],
        decreases out@.len() - i,
    {
        let hard = match out.at(i) {
            Ir::HardLine => true,
            _ => false,
        };
        if hard {
            out.set(i, Ir::Line);
        }
        i = i + 1;
    }
    assert(out@ =~= softened(all));
    out
}

/// The pieces of a cell one after the other on its line.
#[verifier::opaque]
pub open spec fn soft_line(parts: Seq<Layout>) -> Layout {
    concat(softened(parts))
}

fn join_softly(parts: IrList) -> (r: Ir)
    ensures
        r@ == soft_line(parts@),
{
    proof {
        reveal(soft_line);
    }
    Ir::concat(soften(parts))
}

/// What a cell of text holds.
pub open spec fn text_cell(cx: LowerCtx, es: Seq<usize>, fuel: nat) -> Layout
    decreases fuel, 68int, 0int,
{
    soft_line(stream(cx, es, 0, fuel))
}

/// What a cell of math holds.
pub open spec fn math_cell(cx: LowerCtx, es: Seq<usize>, fuel: nat) -> Layout
    decreases fuel, 67int, 0int,
{
    math_seq(cx, es, MathSpacing::Normal, false, fuel)
}

/// What a cell holds.
pub open spec fn cell_layout(cx: LowerCtx, es: Seq<usize>, math: bool, fuel: nat) -> Layout
    decreases fuel, 69int, 0int,
{
    if math {
        math_cell(cx, es, fuel)
    } else {
        text_cell(cx, es, fuel)
    }
}

fn lower_text_cell(cx: LowerCtx, es: &Vec<usize>, Ghost(fuel): Ghost<nat>) -> (r: Ir)
    requires
        cx.ok(),
        fits(cx.t, es@, fuel),
    ensures
        r@ == cell_layout(cx, es@, false, fuel),
    decreases fuel, 68int, 0int,
{
    join_softly(lower_element_stream(cx, es, Ghost(fuel)))
}

fn lower_math_cell(cx: LowerCtx, es: &Vec<usize>, Ghost(fuel): Ghost<nat>) -> (r: Ir)
    requires
        cx.ok(),
        fits(cx.t, es@, fuel),
    ensures
        r@ == cell_layout(cx, es@, true, fuel),
    decreases fuel, 67int, 0int,
{
    let all = copy_elements(es);
    lower_math_seq(cx, all, MathSpacing::Normal, false, Ghost(fuel))
}

fn lower_cell(cx: LowerCtx, es: &Vec<usize>, math: bool, Ghost(fuel): Ghost<nat>) -> (r: Ir)
    requires
        cx.ok(),
        fits(cx.t, es@, fuel),
    ensures
        r@ == cell_layout(cx, es@, math, fuel),
    decreases fuel, 69int, 0int,
{
    if math {
        lower_math_cell(cx, es, Ghost(fuel))
    } else {
        lower_text_cell(cx, es, Ghost(fuel))
    }
}

/// The column behind a piece: none where the piece is empty.
#[verifier::opaque]
pub open spec fn column_behind(l: Layout) -> int {
    let width = trimmed(flat_text(l)).len() as int;
    if width == 0 {
        0
    } else {
        clamped(width + 1)
    }
}

fn measure_column(ir: &Ir) -> (r: usize)
    ensures
        r == column_behind(ir@),
{
    proof {
        reveal(column_behind);
    }
    let text = ir.print_flat();
    let width: usize = trim(text.as_str()).unicode_len();
    if width == 0 {
        0
    } else {
        clamped_sum(width, 1)
    }
}

/// How far the later lines of a cell are indented: to the column behind what stands before the
/// node at `i`, which spans lines.
pub open spec fn cell_hang(cx: LowerCtx, es: Seq<usize>, i: int, fuel: nat) -> int
    decreases fuel, 68int, 0int,
{
    if i == 0 {
        0
    } else {
        column_behind(math_cell(cx, es.subrange(0, i), fuel))
    }
}

fn measure_hang(cx: LowerCtx, es: &Vec<usize>, i: usize, Ghost(fuel): Ghost<nat>) -> (r: usize)
    requires
        cx.ok(),
        fits(cx.t, es@, fuel),
        i <= es@.len(),
    ensures
        r == cell_hang(cx, es@, i as int, fuel),
    decreases fuel, 68int, 0int,
{
    if i == 0 {
        return 0;
    }
    let lead = part(es, 0, i);
    assert(fits(cx.t, lead@, fuel));
    measure_column(&lower_math_cell(cx, &lead, Ghost(fuel)))
}

/// Whether a cell with a node that spans lines may do so: no line of it is empty, and nothing in
/// it is reproduced byte by byte.
#[verifier::opaque]
pub open spec fn may_span(t: &Tree, es: Seq<usize>) -> bool {
    !any_verbatim_env(t, es) && !blank_line(t, es, 0, 0)
}

fn can_span(cx: LowerCtx, es: &Vec<usize>) -> (r: bool)
    requires
        cx.ok(),
        in_tree(cx.t, es@),
    ensures
        r == may_span(cx.t, es@),
{
    proof {
        reveal(may_span);
    }
    !any_contains_verbatim_env(cx, es) && !cell_has_blank_line(cx, es)
}

/// A cell on one line.
#[verifier::opaque]
pub open spec fn flat_field(l: Layout, column: (int, Option<ColAlign>)) -> Field {
    Field { text: trimmed(flat_text(l)), span: column.0, align: column.1, block: None }
}

/// A cell on several lines.
#[verifier::opaque]
pub open spec fn block_field(l: Layout, hang: int, column: (int, Option<ColAlign>)) -> Field {
    Field { text: Seq::empty(), span: column.0, align: column.1, block: Some(Block { hang, layout: l }) }
}

fn make_flat_cell(ir: &Ir, span: usize, align: Option<ColAlign>) -> (r: Cell)
    ensures
        r@ == flat_field(ir@, (span as int, align)),
        r.span == span,
{
    proof {
        reveal(flat_field);
    }
    let flat = ir.print_flat();
    let text = trim(flat.as_str()).to_owned();
    Cell { text, span, align, block: None }
}

fn make_block_cell(ir: Ir, hang: usize, span: usize, align: Option<ColAlign>) -> (r: Cell)
    ensures
        r@ == block_field(ir@, hang as int, (span as int, align)),
        r.span == span,
{
    proof {
        reveal(block_field);
    }
    let text = String::new();
    assert(text@ =~= Seq::<char>::empty());
    Cell { text, span, align, block: Some(BlockCell { hang, ir }) }
}

/// A cell that `l` has come to. There is none where it cannot be put on one line and cannot
/// span lines either.
pub open spec fn settled_cell(cx: LowerCtx, es: Seq<usize>, first: Option<int>, l: Layout, fuel: nat) -> Option<Field>
    decreases fuel, 69int, 0int,
{
    if !forces_break(l) {
        Some(flat_field(l, multicolumn(cx.t, es)))
    } else if first is Some && may_span(cx.t, es) {
        Some(block_field(l, cell_hang(cx, es, first->0, fuel), multicolumn(cx.t, es)))
    } else {
        None
    }
}

pub open spec fn position(i: Option<usize>) -> Option<int> {
    match i {
        Some(i) => Some(i as int),
        None => None,
    }
}

fn settle_cell(cx: LowerCtx, es: &Vec<usize>, first: Option<usize>, ir: Ir, Ghost(fuel): Ghost<nat>) -> (r: Option<Cell>)
    requires
        cx.ok(),
        fits(cx.t, es@, fuel),
        first matches Some(i) ==> i < es@.len(),
    ensures
        r is Some == settled_cell(cx, es@, position(first), ir@, fuel) is Some,
        r matches Some(x) ==> settled_cell(cx, es@, position(first), ir@, fuel) == Some(x@) && x.span >= 1,
    decreases fuel, 69int, 0int,
{
    let (span, align) = detect_multicolumn(cx, es);
    if !ir.contains_forced_break() {
        return Some(make_flat_cell(&ir, span, align));
    }
    match first {
        Some(i) => {
            if !can_span(cx, es) {
                return None;
            }
            let hang: usize = measure_hang(cx, es, i, Ghost(fuel));
            Some(make_block_cell(ir, hang, span, align))
        },
        None => None,
    }
}

/// The first node of a cell of math that spans lines.
pub open spec fn broken_at(cx: LowerCtx, es: Seq<usize>, math: bool, fuel: nat) -> Option<int>
    decreases fuel, 68int, 0int,
{
    if math {
        first_broken(cx, es, 0, fuel)
    } else {
        None
    }
}

/// The cell that the elements come to.
pub open spec fn cell(cx: LowerCtx, all: Seq<usize>, math: bool, fuel: nat) -> Option<Field>
    decreases fuel, 70int, 0int,
{
    let es = solid_core(cx.t, all);
    if any_tok(cx.t, es, SyntaxKind::Comment) {
        None
    } else {
        settled_cell(cx, es, broken_at(cx, es, math, fuel), cell_layout(cx, es, math, fuel), fuel)
    }
}

pub fn finish_cell(cx: LowerCtx, all: &Vec<usize>, math: bool, Ghost(fuel): Ghost<nat>) -> (r: Option<Cell>)
    requires
        cx.ok(),
        fits(cx.t, all@, fuel),
    ensures
        r is Some == cell(cx, all@, math, fuel) is Some,
        r matches Some(x) ==> cell(cx, all@, math, fuel) == Some(x@) && x.span >= 1,
    decreases fuel, 70int, 0int,
{
    let es = trim_gaps(cx, all, Ghost(fuel));
    if any_token(cx, &es, SyntaxKind::Comment) {
        return None;
    }
    let first = if math {
        find_first_broken(cx, &es, Ghost(fuel))
    } else {
        None
    };
    let ir = lower_cell(cx, &es, math, Ghost(fuel));
    settle_cell(cx, &es, first, ir, Ghost(fuel))
}

/// The context within a cell.
pub open spec fn within_cells(cx: LowerCtx, soft: bool) -> LowerCtx {
    LowerCtx { in_cell: soft, ..cx }
}

pub fn in_cells(cx: LowerCtx, soft: bool) -> (r: LowerCtx)
    requires
        cx.ok(),
    ensures
        r == within_cells(cx, soft),
        r.ok(),
        r.t == cx.t,
{
    proof {
        reveal(LowerCtx::ok);
    }
    LowerCtx { in_cell: soft, ..cx }
}

} // verus!

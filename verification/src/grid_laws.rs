//! What holds of every table that is read into rows.

use vstd::prelude::*;

use crate::alignment::{
    alignment_grid, grid, grid_step, line_here, line_scan, rule_line, table_elements,
    Grid,
};
use crate::cells::{broken_at, cell, cell_layout, flat_field, settled_cell, within_cells};
use crate::context::{gap_at, tok_at, LowerCtx};
use crate::display::without_element;
use crate::environments::spaces_end;
use crate::flatten::solid_core;
use crate::gap::{blanks_end, gap_end, lemma_blanks_end, lemma_gap_end};
use crate::ir::{flat_joined, flat_text, lemma_concat_reads, verbatim, Layout};
use crate::lower::{loose, margin_left_out, stream, streamed};

use crate::syntax::{SyntaxKind, Tree};
use crate::table::{Field, Record, Strip};
use crate::text::{has_tail, strip_end, strip_start, trimmed, white, CharSet};

verus! {

// ---- lines of comments and rules -----------------------------------------------------------

/// Whether an element is neither a comment nor a line break of a row.
spec fn plain(t: &Tree, e: int) -> bool {
    !t.tok_is(e, SyntaxKind::Comment) && !t.node_is(e, SyntaxKind::LineBreak)
}

/// Where the line that starts at `i` ends.
spec fn line_stop(cx: LowerCtx, es: Seq<usize>, i: int) -> int {
    match line_scan(cx, es, i, i, false) {
        Some((stop, _, _)) => stop,
        None => i,
    }
}

/// Whether a comment ends it.
spec fn line_has_comment(cx: LowerCtx, es: Seq<usize>, i: int) -> bool {
    match line_scan(cx, es, i, i, false) {
        Some((_, _, comment)) => comment,
        None => false,
    }
}

proof fn lemma_line_scan(cx: LowerCtx, es: Seq<usize>, i: int, end: int, rule: bool)
    requires
        0 <= end <= i <= es.len(),
    ensures
        line_scan(cx, es, i, end, rule) matches Some((stop, _, comment)) ==> {
            &&& end <= stop <= es.len()
            &&& comment ==> i < stop && cx.t.tok_is(es[stop - 1] as int, SyntaxKind::Comment)
            &&& forall|k: int| i <= k < stop && !(comment && k == stop - 1) ==> plain(cx.t, #[trigger] es[k] as int)
        },
    decreases es.len() - i,
{
    if i < es.len() {
        lemma_line_scan(cx, es, i + 1, end, rule);
        lemma_line_scan(cx, es, i + 1, i + 1, true);
        lemma_line_scan(cx, es, i + 1, i + 1, rule);
    }
}

proof fn lemma_spaces(t: &Tree, es: Seq<usize>, i: int)
    requires
        0 <= i <= es.len(),
    ensures
        i <= spaces_end(t, es, i) <= es.len(),
        forall|k: int| i <= k < spaces_end(t, es, i) ==> plain(t, #[trigger] es[k] as int),
    decreases es.len() - i,
{
    if tok_at(t, es, i, SyntaxKind::Whitespace) {
        lemma_spaces(t, es, i + 1);
    }
}

/// What a line of comments and rules takes in: at most one comment, which ends it, and no line
/// break of a row.
proof fn lemma_rule_line(cx: LowerCtx, es: Seq<usize>, i: int, fuel: nat)
    requires
        0 <= i < es.len(),
    ensures
        rule_line(cx, es, i, fuel) matches Some(line) ==> {
            let stop = line_stop(cx, es, i);
            let comment = line_has_comment(cx, es, i);
            &&& i <= stop <= line.next <= es.len()
            &&& comment ==> i < stop && cx.t.tok_is(es[stop - 1] as int, SyntaxKind::Comment)
            &&& forall|k: int|
                i <= k < line.next && !(comment && k == stop - 1) ==> plain(cx.t, #[trigger] es[k] as int)
            &&& line.text == trimmed(flat_text(streamed(cx, es.subrange(i, stop), fuel)))
        },
{
    lemma_line_scan(cx, es, i, i, false);
    if let Some((stop, _, _)) = line_scan(cx, es, i, i, false) {
        lemma_spaces(cx.t, es, stop);
        let j = spaces_end(cx.t, es, stop);
        if tok_at(cx.t, es, j, SyntaxKind::Newline) {
            assert(plain(cx.t, es[j] as int));
        }
    }
}

// ---- what a line reads ---------------------------------------------------------------------

proof fn lemma_gap_run(t: &Tree, es: Seq<usize>, i: int)
    ensures
        forall|k: int| i <= k < gap_end(t, es, i) ==> #[trigger] gap_at(t, es, k),
        forall|k: int| i <= k < blanks_end(t, es, i) ==> #[trigger] tok_at(t, es, k, SyntaxKind::Whitespace),
    decreases es.len() - i,
{
    if gap_at(t, es, i) || tok_at(t, es, i, SyntaxKind::Whitespace) {
        lemma_gap_run(t, es, i + 1);
    }
}

proof fn lemma_stream_last(cx: LowerCtx, es: Seq<usize>, i: int, fuel: nat)
    requires
        0 <= i < es.len(),
        cx.t.tok_is(es[es.len() - 1] as int, SyntaxKind::Comment),
        !cx.absorbs(es[es.len() - 1] as int),
    ensures
        stream(cx, es, i, fuel).len() > 0,
        stream(cx, es, i, fuel).last() == verbatim(cx.t.txt(es[es.len() - 1] as int)),
    decreases es.len() - i,
{
    let n = es.len() as int;
    let e = es[i] as int;
    if i == n - 1 {
        assert(stream(cx, es, i + 1, fuel) =~= Seq::<Layout>::empty());
        assert(!margin_left_out(cx, e, fuel) && !cx.t.gap(e));
        assert(stream(cx, es, i, fuel) == seq![loose(cx, e)] + stream(cx, es, i + 1, fuel));
        assert(stream(cx, es, i, fuel) =~= seq![loose(cx, e)]);
    } else {
        lemma_gap_end(cx.t, es, i);
        lemma_blanks_end(cx.t, es, i + 1);
        lemma_gap_run(cx.t, es, i);
        lemma_gap_run(cx.t, es, i + 1);
        assert(gap_end(cx.t, es, i) < n) by {
            if gap_end(cx.t, es, i) == n {
                assert(gap_at(cx.t, es, n - 1));
            }
        }
        assert(blanks_end(cx.t, es, i + 1) < n) by {
            if blanks_end(cx.t, es, i + 1) == n {
                assert(tok_at(cx.t, es, n - 1, SyntaxKind::Whitespace));
            }
        }
        lemma_stream_last(cx, es, i + 1, fuel);
        if cx.t.tok(e) && margin_left_out(cx, e, fuel) {
            lemma_stream_last(cx, es, blanks_end(cx.t, es, i + 1), fuel);
        } else if cx.t.tok(e) && cx.t.gap(e) && !cx.off(e) {
            assert(gap_at(cx.t, es, i));
            lemma_stream_last(cx, es, gap_end(cx.t, es, i), fuel);
        }
    }
}

proof fn lemma_strip_start_tail(a: Seq<char>, c: Seq<char>)
    requires
        c.len() > 0,
        !white(c[0]),
    ensures
        strip_start(a + c, CharSet::White) == strip_start(a, CharSet::White) + c,
    decreases a.len(),
{
    if a.len() == 0 {
        assert(a + c =~= c);
        assert(strip_start(a, CharSet::White) + c =~= c);
    } else {
        assert((a + c).drop_first() =~= a.drop_first() + c);
        lemma_strip_start_tail(a.drop_first(), c);
    }
}

proof fn lemma_strip_end_tail(a: Seq<char>, c: Seq<char>)
    requires
        c.len() > 0,
        !white(c[0]),
    ensures
        strip_end(a + c, CharSet::White) == a + strip_end(c, CharSet::White),
    decreases c.len(),
{
    assert((a + c).drop_last() =~= a + c.drop_last());
    assert((a + c).last() == c.last());
    if white(c.last()) {
        assert(c.drop_last()[0] == c[0]);
        lemma_strip_end_tail(a, c.drop_last());
    }
}

/// The text of a comment, as a row or a line between rows carries it.
pub open spec fn comment_text(t: &Tree, e: int) -> Seq<char> {
    strip_end(t.txt(e), CharSet::White)
}

proof fn lemma_line_carries(cx: LowerCtx, es: Seq<usize>, fuel: nat)
    requires
        es.len() > 0,
        cx.t.tok_is(es[es.len() - 1] as int, SyntaxKind::Comment),
        !cx.absorbs(es[es.len() - 1] as int),
        cx.t.txt(es[es.len() - 1] as int).len() > 0,
        !white(cx.t.txt(es[es.len() - 1] as int)[0]),
    ensures
        has_tail(trimmed(flat_text(streamed(cx, es, fuel))), comment_text(cx.t, es[es.len() - 1] as int)),
{
    let parts = stream(cx, es, 0, fuel);
    let c = cx.t.txt(es[es.len() - 1] as int);
    lemma_stream_last(cx, es, 0, fuel);
    lemma_concat_reads(parts);
    let a = flat_joined(parts.drop_last());
    assert(flat_text(verbatim(c)) == c);
    assert(flat_joined(parts) == a + flat_text(parts.last()));
    lemma_strip_start_tail(a, c);
    let b = strip_start(a, CharSet::White);
    lemma_strip_end_tail(b, c);
    let tail = strip_end(c, CharSet::White);
    assert((b + tail).skip(b.len() as int) =~= tail);
}

// ---- the laws ------------------------------------------------------------------------------

/// How many rows end in a line break.
pub open spec fn ended_rows(items: Seq<Strip>) -> nat
    decreases items.len(),
{
    if items.len() == 0 {
        0
    } else {
        ended_rows(items.drop_last()) + match items.last() {
            Strip::Row(row) => if row.line_break is Some {
                1nat
            } else {
                0
            },
            Strip::Line(_) => 0,
        }
    }
}

/// How many line breaks of rows are among the elements from `i` on.
pub open spec fn row_ends(t: &Tree, es: Seq<usize>, i: int) -> nat
    decreases es.len() - i,
{
    if i < 0 || i >= es.len() {
        0
    } else {
        row_ends(t, es, i + 1) + if t.node_is(es[i] as int, SyntaxKind::LineBreak) {
            1nat
        } else {
            0
        }
    }
}

proof fn lemma_no_row_ends(t: &Tree, es: Seq<usize>, i: int, j: int)
    requires
        0 <= i <= j <= es.len(),
        forall|k: int| i <= k < j ==> !t.node_is(#[trigger] es[k] as int, SyntaxKind::LineBreak),
    ensures
        row_ends(t, es, i) == row_ends(t, es, j),
    decreases j - i,
{
    if i < j {
        assert(!t.node_is(es[i] as int, SyntaxKind::LineBreak));
        lemma_no_row_ends(t, es, i + 1, j);
    }
}

proof fn lemma_ended_push(items: Seq<Strip>, item: Strip)
    ensures
        ended_rows(items.push(item)) == ended_rows(items) + match item {
            Strip::Row(row) => if row.line_break is Some {
                1nat
            } else {
                0
            },
            Strip::Line(_) => 0,
        },
{
    assert(items.push(item).drop_last() =~= items);
}

proof fn lemma_line_keeps_rows(s: Grid, t: &Tree, text: Seq<char>, has_rule: bool)
    ensures
        ended_rows(s.with_line(t, text, has_rule).items) == ended_rows(s.items),
{
    lemma_ended_push(s.items, Strip::Line(text));
    if s.items.len() > 0 && s.items.last() is Row {
        let row = s.items.last()->Row_0;
        lemma_ended_push(s.items.drop_last(), Strip::Row(Record { comment: Some(text), ..row }));
    }
}

proof fn lemma_grid_rows(cx: LowerCtx, inner: LowerCtx, math: bool, es: Seq<usize>, i: int, s: Grid, fuel: nat)
    requires
        0 <= i <= es.len(),
    ensures
        grid(cx, inner, math, es, i, s, fuel) matches Some(items) ==> ended_rows(items) == ended_rows(s.items) + row_ends(
            cx.t,
            es,
            i,
        ),
    decreases es.len() - i,
{
    if i == es.len() {
        if let Some(field) = cell(inner, s.cell, math, fuel) {
            lemma_ended_push(
                s.items,
                Strip::Row(Record { cells: s.cells.push(field), line_break: None, comment: None }),
            );
        }
    } else if let Some(line) = line_here(cx, es, i, s, fuel) {
        lemma_rule_line(cx, es, i, fuel);
        if i < line.next <= es.len() {
            let next = s.with_line(cx.t, line.text, line.has_rule);
            lemma_line_keeps_rows(s, cx.t, line.text, line.has_rule);
            assert forall|k: int| i <= k < line.next implies !cx.t.node_is(#[trigger] es[k] as int, SyntaxKind::LineBreak) by {
                assert(plain(cx.t, es[k] as int) || cx.t.tok_is(es[k] as int, SyntaxKind::Comment));
            }
            lemma_no_row_ends(cx.t, es, i, line.next);
            lemma_grid_rows(cx, inner, math, es, line.next, next, fuel);
        }
    } else if let Some(next) = grid_step(cx, inner, math, es, i, s, fuel) {
        lemma_grid_rows(cx, inner, math, es, i + 1, next, fuel);
        if let Some(field) = cell(inner, s.cell, math, fuel) {
            lemma_ended_push(s.items, next.items.last());
        }
    }
}

/// Whether a row or a line between rows carries a comment at its end.
pub open spec fn carries(item: Strip, text: Seq<char>) -> bool {
    match item {
        Strip::Row(row) => row.comment matches Some(own) && has_tail(own, text),
        Strip::Line(own) => has_tail(own, text),
    }
}

/// Whether a table carries a comment.
pub open spec fn carried(items: Seq<Strip>, text: Seq<char>) -> bool {
    exists|k: int| 0 <= k < items.len() && #[trigger] carries(items[k], text)
}

proof fn lemma_carried_push(items: Seq<Strip>, item: Strip, text: Seq<char>)
    ensures
        carried(items, text) ==> carried(items.push(item), text),
        carries(item, text) ==> carried(items.push(item), text),
{
    if carried(items, text) {
        let k = choose|k: int| 0 <= k < items.len() && #[trigger] carries(items[k], text);
        assert(carries(items.push(item)[k], text));
    }
    if carries(item, text) {
        assert(carries(items.push(item)[items.len() as int], text));
    }
}

proof fn lemma_line_keeps_comments(s: Grid, t: &Tree, text: Seq<char>, has_rule: bool, c: Seq<char>)
    ensures
        carried(s.items, c) ==> carried(s.with_line(t, text, has_rule).items, c),
        has_tail(text, c) ==> carried(s.with_line(t, text, has_rule).items, c),
{
    lemma_carried_push(s.items, Strip::Line(text), c);
    if s.items.len() > 0 && s.items.last() is Row && s.items.last()->Row_0.comment is None {
        let init = s.items.drop_last();
        let row = s.items.last()->Row_0;
        lemma_carried_push(init, Strip::Row(Record { comment: Some(text), ..row }), c);
        if carried(s.items, c) {
            let k = choose|k: int| 0 <= k < s.items.len() && #[trigger] carries(s.items[k], c);
            assert(k < init.len());
            assert(carries(init[k], c));
        }
    }
}

/// What a comment looks like: it starts with a character that is not white space, and is none
/// whose line feed is supplied elsewhere.
pub open spec fn marked(cx: LowerCtx, e: int) -> bool {
    cx.t.txt(e).len() > 0 && !white(cx.t.txt(e)[0]) && !cx.absorbs(e)
}

proof fn lemma_grid_comments(
    cx: LowerCtx,
    inner: LowerCtx,
    math: bool,
    es: Seq<usize>,
    i: int,
    s: Grid,
    fuel: nat,
    at: int,
    c: Seq<char>,
)
    requires
        0 <= i <= es.len(),
        0 <= at < es.len(),
        cx.t.tok_is(es[at] as int, SyntaxKind::Comment),
        marked(cx, es[at] as int),
        c == comment_text(cx.t, es[at] as int),
        i <= at || carried(s.items, c),
    ensures
        grid(cx, inner, math, es, i, s, fuel) matches Some(items) ==> carried(items, c),
    decreases es.len() - i,
{
    if i == es.len() {
        if let Some(field) = cell(inner, s.cell, math, fuel) {
            lemma_carried_push(
                s.items,
                Strip::Row(Record { cells: s.cells.push(field), line_break: None, comment: None }),
                c,
            );
        }
    } else if let Some(line) = line_here(cx, es, i, s, fuel) {
        lemma_rule_line(cx, es, i, fuel);
        if i < line.next <= es.len() {
            let next = s.with_line(cx.t, line.text, line.has_rule);
            lemma_line_keeps_comments(s, cx.t, line.text, line.has_rule, c);
            let stop = line_stop(cx, es, i);
            if i <= at < line.next {
                assert(at == stop - 1) by {
                    if at != stop - 1 {
                        assert(plain(cx.t, es[at] as int));
                    }
                }
                let run = es.subrange(i, stop);
                assert(run[run.len() - 1] == es[at]);
                lemma_line_carries(cx, run, fuel);
            }
            lemma_grid_comments(cx, inner, math, es, line.next, next, fuel, at, c);
        }
    } else if let Some(next) = grid_step(cx, inner, math, es, i, s, fuel) {
        if let Some(field) = cell(inner, s.cell, math, fuel) {
            lemma_carried_push(s.items, next.items.last(), c);
            if at == i {
                assert(carries(next.items.last(), c)) by {
                    assert(c.skip(0) =~= c);
                }
            }
        }
        lemma_grid_comments(cx, inner, math, es, i + 1, next, fuel, at, c);
    }
}

/// Whether only the last cell of a row spans lines, and only one of math.
pub open spec fn one_line_but_for_the_last(cells: Seq<Field>, math: bool) -> bool {
    forall|k: int| 0 <= k < cells.len() && (#[trigger] cells[k]).block is Some ==> math && k == cells.len() - 1
}

/// Whether that holds of every row of a table.
pub open spec fn rows_ok(items: Seq<Strip>, math: bool) -> bool {
    forall|k: int| 0 <= k < items.len() ==> ((#[trigger] items[k]) matches Strip::Row(row) ==> one_line_but_for_the_last(row.cells, math))
}

proof fn lemma_flat_unless_broken(cx: LowerCtx, es: Seq<usize>, l: Layout, fuel: nat)
    ensures
        settled_cell(cx, es, None, l, fuel) matches Some(field) ==> field.block is None,
{
    reveal(flat_field);
}

proof fn lemma_only_math_breaks(cx: LowerCtx, es: Seq<usize>, fuel: nat)
    ensures
        broken_at(cx, es, false, fuel) is None,
{
}

proof fn lemma_block_is_math(cx: LowerCtx, all: Seq<usize>, math: bool, fuel: nat)
    ensures
        cell(cx, all, math, fuel) matches Some(field) ==> (field.block is Some ==> math),
{
    if !math {
        let es = solid_core(cx.t, all);
        lemma_only_math_breaks(cx, es, fuel);
        lemma_flat_unless_broken(cx, es, cell_layout(cx, es, math, fuel), fuel);
    }
}

proof fn lemma_grid_cells(cx: LowerCtx, inner: LowerCtx, math: bool, es: Seq<usize>, i: int, s: Grid, fuel: nat)
    requires
        0 <= i <= es.len(),
        rows_ok(s.items, math),
        forall|k: int| 0 <= k < s.cells.len() ==> (#[trigger] s.cells[k]).block is None,
    ensures
        grid(cx, inner, math, es, i, s, fuel) matches Some(items) ==> rows_ok(items, math),
    decreases es.len() - i,
{
    lemma_block_is_math(inner, s.cell, math, fuel);
    if i == es.len() {
    } else if let Some(line) = line_here(cx, es, i, s, fuel) {
        if i < line.next <= es.len() {
            let next = s.with_line(cx.t, line.text, line.has_rule);
            assert(rows_ok(next.items, math)) by {
                assert forall|k: int| 0 <= k < next.items.len() implies ((#[trigger] next.items[k]) matches Strip::Row(row)
                    ==> one_line_but_for_the_last(row.cells, math)) by {
                    if k < s.items.len() {
                        assert(s.items[k] matches Strip::Row(row) ==> one_line_but_for_the_last(row.cells, math));
                    }
                }
            }
            lemma_grid_cells(cx, inner, math, es, line.next, next, fuel);
        }
    } else if let Some(next) = grid_step(cx, inner, math, es, i, s, fuel) {
        lemma_grid_cells(cx, inner, math, es, i + 1, next, fuel);
    }
}

/// A table that is read into rows ends as many rows as its elements have line breaks; the last
/// cell of a row alone may span lines, and in math only; and each comment among the elements is
/// carried by a row or by a line between rows. `at` is the place of a comment.
pub proof fn tables_keep_their_rows_and_comments(
    cx: LowerCtx,
    body: Seq<usize>,
    math: bool,
    soft: bool,
    lifted: Option<usize>,
    fuel: nat,
    at: int,
)
    requires
        table_elements(cx, body, math, fuel) is Some,
        alignment_grid(cx, body, math, soft, lifted, fuel) is Some,
    ensures
        ({
            let inline = table_elements(cx, body, math, fuel)->0;
            let es = without_element(inline, lifted, inline.len() as int);
            let items = alignment_grid(cx, body, math, soft, lifted, fuel)->0;
            &&& ended_rows(items) == row_ends(cx.t, es, 0)
            &&& rows_ok(items, math)
            &&& 0 <= at < es.len() && cx.t.tok_is(es[at] as int, SyntaxKind::Comment) && marked(cx, es[at] as int) ==> carried(
                items,
                comment_text(cx.t, es[at] as int),
            )
        }),
{
    let inline = table_elements(cx, body, math, fuel)->0;
    let es = without_element(inline, lifted, inline.len() as int);
    let inner = within_cells(cx, soft);
    lemma_grid_rows(cx, inner, math, es, 0, Grid::start(), fuel);
    lemma_grid_cells(cx, inner, math, es, 0, Grid::start(), fuel);
    if 0 <= at < es.len() && cx.t.tok_is(es[at] as int, SyntaxKind::Comment) && marked(cx, es[at] as int) {
        lemma_grid_comments(
            cx,
            inner,
            math,
            es,
            0,
            Grid::start(),
            fuel,
            at,
            comment_text(cx.t, es[at] as int),
        );
    }
}

} // verus!

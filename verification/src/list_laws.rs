//! Where a list has empty lines.

use vstd::prelude::*;

use crate::context::LowerCtx;
use crate::ir::{concat, interleave, kept, Layout};
use crate::lines::joined;
use crate::lists::{
    chunk, chunks, flat_body, is_item, item, item_chunks, items, list_body, list_row, marker_of,
    next_item, overlay, row_of, row_without, unless_nil,
};
use crate::syntax::{SyntaxKind, Tree};

verus! {

// ---- from the source to the row ------------------------------------------------------------

/// Whether element `e` of a body says nothing itself: it is white space, or the comment that has
/// gone elsewhere.
pub open spec fn passed_over(t: &Tree, e: usize, lifted: Option<usize>) -> bool {
    t.gap(e as int) || (t.tok(e as int) && lifted == Some(e))
}

/// Elements `i` and `j` of a body follow one another: between them is nothing but white space.
pub open spec fn follow(t: &Tree, es: Seq<usize>, lifted: Option<usize>, i: int, j: int) -> bool {
    &&& 0 <= i < j < es.len()
    &&& !passed_over(t, es[i], lifted)
    &&& !passed_over(t, es[j], lifted)
    &&& forall|k: int| i < k < j ==> passed_over(t, #[trigger] es[k], lifted)
}

/// How many line breaks stand among the elements `lo..hi`.
pub open spec fn line_breaks(t: &Tree, es: Seq<usize>, lo: int, hi: int) -> nat
    decreases hi - lo,
{
    if lo >= hi {
        0
    } else {
        line_breaks(t, es, lo, hi - 1) + if t.tok(es[hi - 1] as int) && t.k(es[hi - 1] as int) == SyntaxKind::Newline {
            1nat
        } else {
            0
        }
    }
}

/// The white space among the elements `lo..hi`.
pub open spec fn white(t: &Tree, es: Seq<usize>, lo: int, hi: int) -> Seq<usize>
    decreases hi - lo,
{
    if lo >= hi {
        Seq::empty()
    } else if t.gap(es[hi - 1] as int) {
        white(t, es, lo, hi - 1).push(es[hi - 1])
    } else {
        white(t, es, lo, hi - 1)
    }
}

/// What stands on the row for the white space `lo..hi` between two elements: an empty line for two
/// line breaks or more, and else the white space itself.
pub open spec fn parting(t: &Tree, es: Seq<usize>, lo: int, hi: int) -> Seq<Option<usize>> {
    if line_breaks(t, es, lo, hi) >= 2 {
        seq![None::<usize>]
    } else {
        row_of(white(t, es, lo, hi))
    }
}

/// What an element of the body puts on the row: itself, or the children of a paragraph.
pub open spec fn shown(t: &Tree, e: usize, lifted: Option<usize>) -> Seq<Option<usize>> {
    if t.node_is(e as int, SyntaxKind::Paragraph) {
        row_without(t.kids(e as int), lifted, t.kids(e as int).len() as int)
    } else {
        seq![Some(e)]
    }
}

proof fn lemma_between(t: &Tree, es: Seq<usize>, lifted: Option<usize>, i: int, m: int)
    requires
        0 <= i < m <= es.len(),
        !passed_over(t, es[i], lifted),
        forall|k: int| i < k < m ==> passed_over(t, #[trigger] es[k], lifted),
        lifted matches Some(e) ==> t.k(e as int) != SyntaxKind::Newline,
    ensures
        ({
            let s = flat_body(t, es, lifted, m);
            &&& s.started
            &&& s.out == flat_body(t, es, lifted, i).with_run() + shown(t, es[i], lifted)
            &&& s.run == white(t, es, i + 1, m)
            &&& s.newlines == line_breaks(t, es, i + 1, m)
        }),
    decreases m - i,
{
    if m > i + 1 {
        lemma_between(t, es, lifted, i, m - 1);
        assert(passed_over(t, es[m - 1], lifted));
    }
}

proof fn lemma_row_grows(t: &Tree, es: Seq<usize>, lifted: Option<usize>, m: int, n: int)
    requires
        0 <= m <= n <= es.len(),
    ensures
        flat_body(t, es, lifted, m).out.is_prefix_of(flat_body(t, es, lifted, n).out),
    decreases n - m,
{
    if m < n {
        lemma_row_grows(t, es, lifted, m, n - 1);
        let a = flat_body(t, es, lifted, m).out;
        let b = flat_body(t, es, lifted, n - 1).out;
        let c = flat_body(t, es, lifted, n).out;
        assert(b.is_prefix_of(c));
        assert(a =~= c.subrange(0, a.len() as int));
    }
}

/// Between two elements that follow one another in the body of a list, the row has an empty line
/// exactly where the source has one, that is where two line breaks or more stand between them.
/// Otherwise it has the white space of the source.
pub proof fn the_row_of_a_list_has_the_empty_lines_of_the_source(
    t: &Tree,
    es: Seq<usize>,
    lifted: Option<usize>,
    i: int,
    j: int,
)
    requires
        follow(t, es, lifted, i, j),
        lifted matches Some(e) ==> t.k(e as int) != SyntaxKind::Newline,
    ensures
        exists|front: Seq<Option<usize>>, back: Seq<Option<usize>>|
            list_row(t, es, lifted) == #[trigger] (front + shown(t, es[i], lifted) + parting(t, es, i + 1, j) + shown(
                t,
                es[j],
                lifted,
            ) + back),
{
    lemma_between(t, es, lifted, i, j);
    lemma_row_grows(t, es, lifted, j + 1, es.len() as int);
    let front = flat_body(t, es, lifted, i).with_run();
    let mid = parting(t, es, i + 1, j);
    let now = flat_body(t, es, lifted, j + 1).out;
    let all = list_row(t, es, lifted);
    let back = all.skip(now.len() as int);
    assert(now =~= front + shown(t, es[i], lifted) + mid + shown(t, es[j], lifted));
    assert(all =~= now + back);
    assert(all == front + shown(t, es[i], lifted) + mid + shown(t, es[j], lifted) + back);
}

// ---- from the row to an item ---------------------------------------------------------------

/// The elements of a row without empty lines.
pub open spec fn elements(row: Seq<Option<usize>>) -> Seq<usize> {
    Seq::new(row.len(), |i: int| row[i]->0)
}

proof fn lemma_shifted(cx: LowerCtx, front: Seq<Option<usize>>, row: Seq<Option<usize>>, i: int, es: Seq<usize>, fuel: nat)
    requires
        0 <= i <= row.len(),
    ensures
        chunks(cx, front + row, front.len() + i, es, fuel) == chunks(cx, row, i, es, fuel),
    decreases row.len() - i,
{
    if i < row.len() {
        assert((front + row)[front.len() + i] == row[i]);
        match row[i] {
            Some(e) => lemma_shifted(cx, front, row, i + 1, es.push(e), fuel),
            None => lemma_shifted(cx, front, row, i + 1, Seq::empty(), fuel),
        }
    }
}

proof fn lemma_parted(
    cx: LowerCtx,
    row: Seq<Option<usize>>,
    rest: Seq<Option<usize>>,
    i: int,
    es: Seq<usize>,
    fuel: nat,
)
    requires
        0 <= i <= row.len(),
    ensures
        chunks(cx, row + seq![None::<usize>] + rest, i, es, fuel) == chunks(cx, row, i, es, fuel) + chunks(
            cx,
            rest,
            0,
            Seq::empty(),
            fuel,
        ),
    decreases row.len() - i,
{
    let front = row + seq![None::<usize>];
    let all = front + rest;
    if i < row.len() {
        assert(all[i] == row[i]);
        match row[i] {
            Some(e) => lemma_parted(cx, row, rest, i + 1, es.push(e), fuel),
            None => {
                lemma_parted(cx, row, rest, i + 1, Seq::empty(), fuel);
                let a = unless_nil(chunk(cx, es, fuel));
                let b = chunks(cx, row, i + 1, Seq::empty(), fuel);
                let c = chunks(cx, rest, 0, Seq::empty(), fuel);
                assert(a + (b + c) =~= a + b + c);
            },
        }
    } else {
        assert(all[i] is None);
        lemma_shifted(cx, front, rest, 0, Seq::empty(), fuel);
        assert(front.len() == i + 1);
    }
}

proof fn lemma_solid(cx: LowerCtx, row: Seq<Option<usize>>, i: int, es: Seq<usize>, fuel: nat)
    ensures
        forall|k: int| 0 <= k < chunks(cx, row, i, es, fuel).len() ==> !(#[trigger] chunks(cx, row, i, es, fuel)[k] is Nil),
    decreases row.len() - i,
{
    if 0 <= i < row.len() {
        match row[i] {
            Some(e) => lemma_solid(cx, row, i + 1, es.push(e), fuel),
            None => lemma_solid(cx, row, i + 1, Seq::empty(), fuel),
        }
    }
}

proof fn lemma_interleaved(sep: Layout, x: Seq<Layout>, y: Seq<Layout>)
    requires
        x.len() > 0,
        y.len() > 0,
    ensures
        interleave(sep, x + y) == interleave(sep, x) + seq![sep] + interleave(sep, y),
    decreases y.len(),
{
    assert((x + y).drop_last() =~= x + y.drop_last());
    if y.len() > 1 {
        lemma_interleaved(sep, x, y.drop_last());
        assert(interleave(sep, x + y) =~= interleave(sep, x) + seq![sep] + interleave(sep, y));
    } else {
        assert(x + y.drop_last() =~= x);
        assert(interleave(sep, x + y) =~= interleave(sep, x) + seq![sep] + interleave(sep, y));
    }
}

proof fn lemma_kept_solid(parts: Seq<Layout>)
    requires
        forall|k: int| 0 <= k < parts.len() ==> !(#[trigger] parts[k] is Nil),
    ensures
        kept(parts) == parts,
    decreases parts.len(),
{
    if parts.len() > 0 {
        lemma_kept_solid(parts.drop_last());
        assert(parts[parts.len() - 1] == parts.last());
        assert(parts.drop_last().push(parts.last()) =~= parts);
    }
}

proof fn lemma_interleaved_solid(sep: Layout, parts: Seq<Layout>)
    requires
        !(sep is Nil),
        forall|k: int| 0 <= k < parts.len() ==> !(#[trigger] parts[k] is Nil),
    ensures
        forall|k: int| 0 <= k < interleave(sep, parts).len() ==> !(#[trigger] interleave(sep, parts)[k] is Nil),
        parts.len() > 0 ==> interleave(sep, parts).len() > 0,
    decreases parts.len(),
{
    if parts.len() > 1 {
        lemma_interleaved_solid(sep, parts.drop_last());
        assert(parts[parts.len() - 1] == parts.last());
    }
}

/// An item is empty exactly where it has no stretch with content.
proof fn lemma_empty_item(cx: LowerCtx, row: Seq<Option<usize>>, es: Seq<usize>, fuel: nat)
    ensures
        item_chunks(cx, row, es, fuel) is Nil <==> chunks(cx, row, 0, es, fuel).len() == 0,
{
    let parts = chunks(cx, row, 0, es, fuel);
    lemma_solid(cx, row, 0, es, fuel);
    lemma_interleaved_solid(Layout::EmptyLine, parts);
    lemma_kept_solid(interleave(Layout::EmptyLine, parts));
    if parts.len() > 0 {
        assert(!(interleave(Layout::EmptyLine, parts)[0] is Nil));
    }
}

/// Paragraph breaks inside an item are neither lost nor made, for one: where the row of an item
/// has an empty line, what stands before it and what stands behind it have exactly one empty line
/// between them, if neither of the two is empty.
pub proof fn an_empty_line_in_an_item_stays(
    cx: LowerCtx,
    row: Seq<Option<usize>>,
    rest: Seq<Option<usize>>,
    es: Seq<usize>,
    fuel: nat,
)
    ensures
        ({
            let before = item_chunks(cx, row, es, fuel);
            let behind = item_chunks(cx, rest, Seq::empty(), fuel);
            let whole = item_chunks(cx, row + seq![None::<usize>] + rest, es, fuel);
            if before is Nil {
                whole == behind
            } else if behind is Nil {
                whole == before
            } else {
                exists|x: Seq<Layout>, y: Seq<Layout>|
                    {
                        &&& #[trigger] concat(x) == before
                        &&& #[trigger] concat(y) == behind
                        &&& whole == concat(x + seq![Layout::EmptyLine] + y)
                    }
            }
        }),
{
    let x = chunks(cx, row, 0, es, fuel);
    let y = chunks(cx, rest, 0, Seq::empty(), fuel);
    lemma_parted(cx, row, rest, 0, es, fuel);
    lemma_empty_item(cx, row, es, fuel);
    lemma_empty_item(cx, rest, Seq::empty(), fuel);
    if x.len() == 0 {
        assert(x + y =~= y);
    } else if y.len() == 0 {
        assert(x + y =~= x);
    } else {
        lemma_interleaved(Layout::EmptyLine, x, y);
        let a = interleave(Layout::EmptyLine, x);
        let b = interleave(Layout::EmptyLine, y);
        assert(concat(a) == item_chunks(cx, row, es, fuel));
        assert(concat(b) == item_chunks(cx, rest, Seq::empty(), fuel));
    }
}

proof fn lemma_one_stretch(cx: LowerCtx, row: Seq<Option<usize>>, i: int, es: Seq<usize>, fuel: nat)
    requires
        0 <= i <= row.len(),
        forall|k: int| 0 <= k < row.len() ==> #[trigger] row[k] is Some,
    ensures
        chunks(cx, row, i, es, fuel) == unless_nil(chunk(cx, es + elements(row.skip(i)), fuel)),
    decreases row.len() - i,
{
    if i < row.len() {
        let e = row[i]->0;
        lemma_one_stretch(cx, row, i + 1, es.push(e), fuel);
        assert(es + elements(row.skip(i)) =~= es.push(e) + elements(row.skip(i + 1)));
    } else {
        assert(es + elements(row.skip(i)) =~= es);
    }
}

/// Paragraph breaks inside an item are neither lost nor made, for another: what has no empty line
/// in the row is one stretch of prose, with no empty line put between its elements.
pub proof fn an_item_without_an_empty_line_is_one_stretch(cx: LowerCtx, row: Seq<Option<usize>>, es: Seq<usize>, fuel: nat)
    requires
        forall|k: int| 0 <= k < row.len() ==> #[trigger] row[k] is Some,
    ensures
        item_chunks(cx, row, es, fuel) == chunk(cx, es + elements(row), fuel),
{
    lemma_one_stretch(cx, row, 0, es, fuel);
    assert(row.skip(0) =~= row);
    let l = chunk(cx, es + elements(row), fuel);
    let parts = chunks(cx, row, 0, es, fuel);
    if l is Nil {
        assert(parts.len() == 0);
    } else {
        assert(parts =~= seq![l]);
        assert(kept(parts.drop_last()) =~= Seq::<Layout>::empty());
        assert(kept(parts) =~= seq![l]);
    }
}

// ---- from the row to the list --------------------------------------------------------------

/// Where the item behind the one at `i` starts. What belongs to the marker is passed over.
pub open spec fn item_behind(t: &Tree, flat: Seq<Option<usize>>, i: int) -> int {
    next_item(
        t,
        flat,
        match overlay(t, flat, i + 1) {
            Some((_, end)) => end,
            None => i + 1,
        },
    )
}

/// Where the items of a row start, from `i` on.
pub open spec fn item_places(t: &Tree, flat: Seq<Option<usize>>, i: int) -> Seq<int>
    decreases flat.len() - i,
{
    if i < 0 || i >= flat.len() {
        Seq::empty()
    } else if i < item_behind(t, flat, i) <= flat.len() {
        seq![i] + item_places(t, flat, item_behind(t, flat, i))
    } else {
        seq![i]
    }
}

/// The break that stands before an item: an empty line where the row has one directly before it.
pub open spec fn break_before(flat: Seq<Option<usize>>, place: int) -> Layout {
    if place > 0 && flat[place - 1] is None {
        Layout::EmptyLine
    } else {
        Layout::HardLine
    }
}

proof fn lemma_next_item_in_row(t: &Tree, flat: Seq<Option<usize>>, i: int)
    ensures
        next_item(t, flat, i) <= flat.len(),
        i >= 0 ==> next_item(t, flat, i) >= 0,
    decreases flat.len() - i,
{
    if 0 <= i < flat.len() && !(flat[i] is Some && is_item(t, flat[i]->0 as int)) {
        lemma_next_item_in_row(t, flat, i + 1);
    }
}

/// Each item of a row is laid out from where it starts, and an empty line stands before it exactly
/// where the row has one directly before it. Otherwise a line break does.
pub proof fn items_are_parted_by_the_empty_lines_of_the_row(cx: LowerCtx, flat: Seq<Option<usize>>, i: int, fuel: nat)
    ensures
        ({
            let places = item_places(cx.t, flat, i);
            let (ls, seps) = items(cx, flat, i, fuel);
            &&& ls.len() == places.len()
            &&& seps.len() == places.len()
            &&& forall|k: int| 0 <= k < places.len() ==> #[trigger] ls[k] == item(cx, flat, places[k], fuel).0
            &&& forall|k: int| 0 <= k < places.len() ==> #[trigger] seps[k] == break_before(flat, places[k])
        }),
    decreases flat.len() - i,
{
    if 0 <= i < flat.len() {
        let next = item_behind(cx.t, flat, i);
        let start = match overlay(cx.t, flat, i + 1) {
            Some((_, end)) => end,
            None => i + 1,
        };
        assert(item(cx, flat, i, fuel).1 == next);
        lemma_next_item_in_row(cx.t, flat, start);
        if i < next {
            items_are_parted_by_the_empty_lines_of_the_row(cx, flat, next, fuel);
        }
    }
}

proof fn lemma_items_count(cx: LowerCtx, flat: Seq<Option<usize>>, i: int, fuel: nat)
    requires
        0 <= i < flat.len(),
    ensures
        items(cx, flat, i, fuel).0.len() > 0,
        items(cx, flat, i, fuel).1.len() == items(cx, flat, i, fuel).0.len(),
{
    items_are_parted_by_the_empty_lines_of_the_row(cx, flat, i, fuel);
}

proof fn lemma_joined(lines: Seq<Layout>, seps: Seq<Layout>)
    requires
        seps.len() >= lines.len(),
    ensures
        lines.len() > 0 ==> joined(lines, seps).len() == 2 * lines.len() - 1,
        forall|k: int| 0 <= k < lines.len() ==> #[trigger] lines[k] == joined(lines, seps)[2 * k],
        forall|k: int| 0 < k < lines.len() ==> #[trigger] seps[k] == joined(lines, seps)[2 * k - 1],
    decreases lines.len(),
{
    if lines.len() > 1 {
        let before = lines.drop_last();
        lemma_joined(before, seps);
        assert forall|k: int| 0 <= k < lines.len() implies #[trigger] lines[k] == joined(lines, seps)[2 * k] by {
            if k < before.len() {
                assert(before[k] == lines[k]);
            }
        }
        assert forall|k: int| 0 < k < lines.len() implies #[trigger] seps[k] == joined(lines, seps)[2 * k - 1] by {
            if k < before.len() {
                assert(seps[k] == joined(before, seps)[2 * k - 1]);
            }
        }
    }
}

/// A layout is pieces with breaks between them, `lead` first where it is not empty.
pub open spec fn parted(whole: Layout, lead: Layout, rest: Seq<Layout>, seps: Seq<Layout>) -> bool {
    let skip = if lead is Nil {
        0int
    } else {
        1
    };
    exists|parts: Seq<Layout>|
        {
            &&& whole == #[trigger] concat(parts)
            &&& parts.len() == 2 * (rest.len() + skip) - 1
            &&& !(lead is Nil) ==> parts[0] == lead
            &&& forall|k: int| 0 <= k < rest.len() ==> #[trigger] rest[k] == parts[2 * (k + skip)]
            &&& forall|k: int| 0 <= k < rest.len() && k + skip > 0 ==> #[trigger] seps[k] == parts[2 * (k + skip) - 1]
        }
}

/// Lines behind those of `lead`, of which there is one at most.
proof fn lemma_joined_behind(lead: Seq<Layout>, rest: Seq<Layout>, seps: Seq<Layout>)
    requires
        lead.len() <= 1,
        rest.len() > 0,
        seps.len() == rest.len(),
    ensures
        ({
            let breaks = if lead.len() > 0 {
                seq![Layout::HardLine] + seps
            } else {
                seps
            };
            let parts = joined(lead + rest, breaks);
            &&& parts.len() == 2 * (rest.len() + lead.len()) - 1
            &&& lead.len() > 0 ==> parts[0] == lead[0]
            &&& forall|k: int| 0 <= k < rest.len() ==> #[trigger] rest[k] == parts[2 * (k + lead.len())]
            &&& forall|k: int|
                0 <= k < rest.len() && k + lead.len() > 0 ==> #[trigger] seps[k] == parts[2 * (k + lead.len()) - 1]
        }),
{
    let lines = lead + rest;
    let breaks = if lead.len() > 0 {
        seq![Layout::HardLine] + seps
    } else {
        seps
    };
    let n = lead.len() as int;
    let parts = joined(lines, breaks);
    lemma_joined(lines, breaks);
    if n > 0 {
        assert(lines[0] == parts[0]);
    }
    assert forall|k: int| 0 <= k < rest.len() implies #[trigger] rest[k] == parts[2 * (k + n)] by {
        assert(lines[k + n] == rest[k]);
    }
    assert forall|k: int| 0 <= k < rest.len() && k + n > 0 implies #[trigger] seps[k] == parts[2 * (k + n) - 1] by {
        assert(breaks[k + n] == seps[k]);
    }
}

proof fn lemma_parted_list(lead: Layout, rest: Seq<Layout>, seps: Seq<Layout>)
    requires
        rest.len() > 0,
        seps.len() == rest.len(),
    ensures
        parted(
            concat(
                joined(
                    unless_nil(lead) + rest,
                    if unless_nil(lead).len() > 0 {
                        seq![Layout::HardLine] + seps
                    } else {
                        seps
                    },
                ),
            ),
            lead,
            rest,
            seps,
        ),
{
    lemma_joined_behind(unless_nil(lead), rest, seps);
}

/// A list is what stands before its first item and then its items, each on lines of its own and in
/// order, with the break before each item between them.
pub proof fn a_list_is_its_items_with_breaks_between_them(cx: LowerCtx, es: Seq<usize>, lifted: Option<usize>, fuel: nat)
    requires
        list_body(cx, es, lifted, fuel) is Some,
    ensures
        ({
            let flat = list_row(cx.t, es, lifted);
            let first = next_item(cx.t, flat, 0);
            let (rest, seps) = items(cx, flat, first, fuel);
            let lead = item_chunks(cx, flat.subrange(0, first), Seq::empty(), fuel);
            parted(list_body(cx, es, lifted, fuel)->0, lead, rest, seps)
        }),
{
    let flat = list_row(cx.t, es, lifted);
    let first = next_item(cx.t, flat, 0);
    let (rest, seps) = items(cx, flat, first, fuel);
    let lead = item_chunks(cx, flat.subrange(0, first), Seq::empty(), fuel);
    lemma_next_item_in_row(cx.t, flat, 0);
    lemma_items_count(cx, flat, first, fuel);
    lemma_parted_list(lead, rest, seps);
}

/// The lines of an item hang under what follows its command: the label and the comments before the
/// command do not count.
pub proof fn the_label_of_an_item_does_not_deepen_it(cx: LowerCtx, es: Seq<usize>, c: int, n: int, fuel: nat)
    requires
        0 <= c < n <= es.len(),
        cx.t.tok_is(es[c] as int, SyntaxKind::ControlWord),
        forall|j: int| 0 <= j < n && j != c ==> !cx.t.tok_is(#[trigger] es[j] as int, SyntaxKind::ControlWord),
        forall|j: int|
            0 <= j < c ==> cx.t.node_is(#[trigger] es[j] as int, SyntaxKind::DocComment) || cx.t.gap(es[j] as int),
        cx.t.txt(es[c] as int).len() < usize::MAX,
    ensures
        marker_of(cx, es, n, fuel).hang == cx.t.txt(es[c] as int).len() + 1,
    decreases n,
{
    if n - 1 > c {
        the_label_of_an_item_does_not_deepen_it(cx, es, c, n - 1, fuel);
        assert(!cx.t.tok_is(es[n - 1] as int, SyntaxKind::ControlWord));
    } else {
        lemma_before_command(cx, es, c, c, fuel);
    }
}

proof fn lemma_before_command(cx: LowerCtx, es: Seq<usize>, c: int, n: int, fuel: nat)
    requires
        0 <= n <= c < es.len(),
        forall|j: int|
            0 <= j < c ==> cx.t.node_is(#[trigger] es[j] as int, SyntaxKind::DocComment) || cx.t.gap(es[j] as int),
    ensures
        marker_of(cx, es, n, fuel).hang == 1,
        marker_of(cx, es, n, fuel).content.len() == 0,
    decreases n,
{
    if n > 0 {
        lemma_before_command(cx, es, c, n - 1, fuel);
        let e = es[n - 1] as int;
        assert(cx.t.node_is(e, SyntaxKind::DocComment) || cx.t.gap(e));
    }
}

} // verus!

//! How the parts of a lowering keep the ink of what they lay out.

use vstd::prelude::*;

use crate::context::{gap_at, lemma_kids, lemma_next_has_parent, tok_at, LowerCtx};
use crate::fidelity::one_element_has_its_source;
use crate::gap::{
    blanks_end, gap_end, gap_newlines, gap_of, gap_tail, lemma_blanks_end, lemma_gap_end, trivia_layout,
};
use crate::ink::{ink, ink_of_a_sum, lemma_ink_of_one};
use crate::ir::{flat_joined, flat_text, lemma_concat_reads, verbatim, Layout};
use crate::lower::{
    checked, document, expl_node, indentation_end, inline_node, is_block, laid, loose, margin_left_out, node, node_path,
    stream, streamed, structure, unchecked, without_feed, NodePath,
};
use crate::syntax::{SyntaxKind, Tree};
use crate::text::{strip_start, CharSet};

verus! {

/// Whether the tokens of white space hold nothing else, and the margins of a documented source
/// nothing but percent signs.
pub open spec fn gaps_are_white(t: &Tree, margins: bool) -> bool {
    &&& forall|e: int| 0 <= e < t.n() && #[trigger] t.gap(e) ==> ink(t.txt(e), margins).len() == 0
    &&& forall|e: int| 0 <= e < t.n() && #[trigger] t.tok_is(e, SyntaxKind::DocMargin) ==> ink(t.txt(e), margins).len() == 0
}

/// The source of a list of elements, from `i` on.
pub open spec fn sources(t: &Tree, es: Seq<usize>, i: int) -> Seq<char>
    decreases es.len() - i,
{
    if i < 0 || i >= es.len() {
        Seq::empty()
    } else {
        t.src(es[i] as int) + sources(t, es, i + 1)
    }
}

/// Whether the layout of an element has its ink.
pub open spec fn keeps_own_ink(cx: LowerCtx, e: int, fuel: nat) -> bool {
    ink(flat_text(node(cx, e, fuel)), cx.is_dtx) == ink(cx.t.src(e), cx.is_dtx)
}

proof fn lemma_strip_start_ink(text: Seq<char>, set: CharSet, margins: bool)
    ensures
        ink(strip_start(text, set), margins) == ink(text, margins),
    decreases text.len(),
{
    if text.len() > 0 && set.has(text[0]) {
        lemma_strip_start_ink(text.drop_first(), set, margins);
        let head = seq![text[0]];
        assert(text =~= head + text.drop_first());
        ink_of_a_sum(head, text.drop_first(), margins);
        lemma_ink_of_one(text[0], margins);
        assert(ink(text, margins) =~= ink(text.drop_first(), margins));
    }
}

/// An element that is reproduced as it stands, and a paragraph of guarded lines, keep their ink.
pub proof fn reproduced_elements_keep_the_ink(cx: LowerCtx, n: int, fuel: nat)
    requires
        0 < n < cx.t.n(),
        cx.range is None,
        node_path(cx, n) == NodePath::Source || node_path(cx, n) == NodePath::Guarded,
    ensures
        keeps_own_ink(cx, n, fuel),
{
    lemma_strip_start_ink(cx.t.src(n), CharSet::LineBreaks, cx.is_dtx);
    lemma_checked_ink(cx, n, unchecked(cx, n, fuel));
}

proof fn lemma_checked_ink(cx: LowerCtx, n: int, l: Layout)
    requires
        0 <= n < cx.t.n(),
        cx.range is None,
    ensures
        is_block(cx, n) || ink(flat_text(l), cx.is_dtx) == ink(cx.t.src(n), cx.is_dtx) ==> ink(
            flat_text(checked(cx, n, l)),
            cx.is_dtx,
        ) == ink(cx.t.src(n), cx.is_dtx),
{
    reveal(checked);
    assert(cx.t.n() == cx.t.elems.len());
    one_element_has_its_source(cx.t, n as usize);
}

/// A block keeps its ink: its layout is held against its source.
pub proof fn blocks_keep_the_ink(cx: LowerCtx, n: int, fuel: nat)
    requires
        0 <= n < cx.t.n(),
        cx.range is None,
        is_block(cx, n),
    ensures
        keeps_own_ink(cx, n, fuel),
{
    lemma_checked_ink(cx, n, unchecked(cx, n, fuel));
}

pub(crate) proof fn lemma_token_source(t: &Tree, e: int)
    requires
        t.wf(),
        0 <= e < t.n(),
        t.tok(e),
    ensures
        t.src(e) == t.txt(e),
{
    assert(t.end(e) == e + 1);
    assert(t.source(e, e) =~= Seq::<char>::empty());
    assert(t.source(e, e + 1) == t.source(e, e) + t.txt(e));
    assert(t.src(e) =~= t.txt(e));
}

pub(crate) proof fn lemma_loose_ink(cx: LowerCtx, e: int)
    requires
        cx.t.k(e) == SyntaxKind::DocMargin ==> ink(cx.t.txt(e), cx.is_dtx).len() == 0,
    ensures
        ink(flat_text(loose(cx, e)), cx.is_dtx) == ink(cx.t.txt(e), cx.is_dtx),
{
    let text = cx.t.txt(e);
    assert(ink(text, cx.is_dtx).len() == 0 ==> ink(text, cx.is_dtx) =~= Seq::<char>::empty());
    if text.len() > 0 && text.last() == '\n' {
        assert(without_feed(text) == text.drop_last());
    }
}

proof fn lemma_tail_ink(t: &Tree, es: Seq<usize>, i: int, tail: Seq<char>, margins: bool)
    requires
        gaps_are_white(t, margins),
        0 <= i,
        forall|k: int| 0 <= k < es.len() ==> (#[trigger] es[k]) < t.n(),
        ink(tail, margins).len() == 0,
    ensures
        ink(gap_tail(t, es, i, tail), margins).len() == 0,
    decreases es.len() - i,
{
    if gap_at(t, es, i) {
        assert(t.gap(es[i] as int));
        ink_of_a_sum(tail, t.txt(es[i] as int), margins);
        lemma_tail_ink(t, es, i + 1, t.txt(es[i] as int), margins);
        lemma_tail_ink(t, es, i + 1, tail + t.txt(es[i] as int), margins);
        lemma_tail_ink(t, es, i + 1, tail, margins);
        lemma_tail_ink(t, es, i + 1, Seq::empty(), margins);
    }
}

pub(crate) proof fn lemma_run_ink(t: &Tree, es: Seq<usize>, i: int, margins: bool)
    requires
        t.wf(),
        gaps_are_white(t, margins),
        0 <= i <= es.len(),
        forall|k: int| 0 <= k < es.len() ==> (#[trigger] es[k]) < t.n(),
    ensures
        ink(sources(t, es, i), margins) == ink(sources(t, es, gap_end(t, es, i)), margins),
    decreases es.len() - i,
{
    if gap_at(t, es, i) {
        let e = es[i] as int;
        lemma_run_ink(t, es, i + 1, margins);
        lemma_token_source(t, e);
        assert(t.gap(e));
        ink_of_a_sum(t.src(e), sources(t, es, i + 1), margins);
        assert(ink(sources(t, es, i), margins) =~= ink(sources(t, es, i + 1), margins));
    }
}

proof fn lemma_gap_layout_ink(t: &Tree, es: Seq<usize>, i: int, soften: bool, margins: bool)
    requires
        gaps_are_white(t, margins),
        0 <= i,
        forall|k: int| 0 <= k < es.len() ==> (#[trigger] es[k]) < t.n(),
    ensures
        ink(flat_text(trivia_layout(gap_of(t, es, i), gap_newlines(t, es, i), soften)), margins) == Seq::<char>::empty(),
{
    lemma_tail_ink(t, es, i, Seq::empty(), margins);
    lemma_ink_of_one(' ', margins);
    let l = trivia_layout(gap_of(t, es, i), gap_newlines(t, es, i), soften);
    assert(ink(flat_text(l), margins) =~= Seq::<char>::empty());
}

proof fn lemma_blanks_ink(t: &Tree, es: Seq<usize>, i: int, margins: bool)
    requires
        t.wf(),
        gaps_are_white(t, margins),
        0 <= i <= es.len(),
        forall|k: int| 0 <= k < es.len() ==> (#[trigger] es[k]) < t.n(),
    ensures
        ink(sources(t, es, i), margins) == ink(sources(t, es, blanks_end(t, es, i)), margins),
    decreases es.len() - i,
{
    if tok_at(t, es, i, SyntaxKind::Whitespace) {
        let e = es[i] as int;
        lemma_blanks_ink(t, es, i + 1, margins);
        lemma_token_source(t, e);
        assert(t.gap(e));
        ink_of_a_sum(t.src(e), sources(t, es, i + 1), margins);
        assert(ink(sources(t, es, i), margins) =~= ink(sources(t, es, i + 1), margins));
    }
}

proof fn lemma_stream_ink(cx: LowerCtx, es: Seq<usize>, i: int, fuel: nat)
    requires
        cx.t.wf(),
        gaps_are_white(cx.t, cx.is_dtx),
        0 <= i <= es.len(),
        forall|k: int| 0 <= k < es.len() ==> (#[trigger] es[k]) < cx.t.n(),
        forall|k: int| 0 <= k < es.len() && !cx.t.tok(#[trigger] es[k] as int) ==> keeps_own_ink(cx, es[k] as int, fuel),
    ensures
        ink(flat_joined(stream(cx, es, i, fuel)), cx.is_dtx) == ink(sources(cx.t, es, i), cx.is_dtx),
    decreases es.len() - i,
{
    let m = cx.is_dtx;
    if i < es.len() {
        let e = es[i] as int;
        lemma_gap_end(cx.t, es, i);
        lemma_blanks_end(cx.t, es, i + 1);
        ink_of_a_sum(cx.t.src(e), sources(cx.t, es, i + 1), m);
        if cx.t.tok(e) {
            lemma_token_source(cx.t, e);
        }
        if cx.t.tok(e) && margin_left_out(cx, e, fuel) {
            let next = blanks_end(cx.t, es, i + 1);
            assert(stream(cx, es, i, fuel) == stream(cx, es, next, fuel));
            lemma_stream_ink(cx, es, next, fuel);
            lemma_blanks_ink(cx.t, es, i + 1, m);
            assert(cx.t.tok_is(e, SyntaxKind::DocMargin));
            assert(ink(sources(cx.t, es, i), m) =~= ink(sources(cx.t, es, i + 1), m));
        } else {
            let (first, next) = if !cx.t.tok(e) {
                (node(cx, e, fuel), i + 1)
            } else if cx.t.gap(e) && !cx.off(e) {
                (trivia_layout(gap_of(cx.t, es, i), gap_newlines(cx.t, es, i), cx.in_cell), gap_end(cx.t, es, i))
            } else if cx.t.gap(e) {
                (verbatim(cx.t.txt(e)), i + 1)
            } else {
                (loose(cx, e), i + 1)
            };
            let rest = stream(cx, es, next, fuel);
            assert(stream(cx, es, i, fuel) == seq![first] + rest);
            if cx.t.tok(e) && cx.t.gap(e) {
                assert(gap_at(cx.t, es, i));
            }
            lemma_stream_ink(cx, es, next, fuel);
            lemma_joined_front(first, rest);
            ink_of_a_sum(flat_text(first), flat_joined(rest), m);
            if !cx.t.tok(e) {
                assert(keeps_own_ink(cx, e, fuel));
            } else if cx.t.gap(e) && !cx.off(e) {
                lemma_gap_layout_ink(cx.t, es, i, cx.in_cell, m);
                lemma_run_ink(cx.t, es, i, m);
                assert(ink(flat_joined(stream(cx, es, i, fuel)), m) =~= ink(flat_joined(rest), m));
            } else if !cx.t.gap(e) {
                assert(cx.t.k(e) == SyntaxKind::DocMargin ==> cx.t.tok_is(e, SyntaxKind::DocMargin));
                lemma_loose_ink(cx, e);
            }
        }
    } else {
        assert(stream(cx, es, i, fuel) =~= Seq::<Layout>::empty());
        assert(sources(cx.t, es, i) =~= Seq::<char>::empty());
    }
}

proof fn lemma_joined_front(first: Layout, rest: Seq<Layout>)
    ensures
        flat_joined(seq![first] + rest) == flat_text(first) + flat_joined(rest),
    decreases rest.len(),
{
    let all = seq![first] + rest;
    if rest.len() == 0 {
        assert(all.drop_last() =~= Seq::<Layout>::empty());
        assert(all.last() == first);
        assert(flat_joined(all) == flat_joined(all.drop_last()) + flat_text(first));
        assert(flat_joined(all) =~= flat_text(first) + flat_joined(rest));
    } else {
        assert(all.drop_last() =~= seq![first] + rest.drop_last());
        lemma_joined_front(first, rest.drop_last());
        assert(flat_joined(all) == flat_joined(all.drop_last()) + flat_text(rest.last()));
        assert(flat_joined(all) =~= flat_text(first) + flat_joined(rest));
    }
}

/// Laid out one after the other, elements keep their ink where each of them does: between them
/// nothing but white space is moved, dropped or added.
pub proof fn streams_keep_the_ink(cx: LowerCtx, es: Seq<usize>, fuel: nat)
    requires
        cx.t.wf(),
        gaps_are_white(cx.t, cx.is_dtx),
        forall|k: int| 0 <= k < es.len() ==> (#[trigger] es[k]) < cx.t.n(),
        forall|k: int| 0 <= k < es.len() && !cx.t.tok(#[trigger] es[k] as int) ==> keeps_own_ink(cx, es[k] as int, fuel),
    ensures
        ink(flat_text(streamed(cx, es, fuel)), cx.is_dtx) == ink(sources(cx.t, es, 0), cx.is_dtx),
{
    lemma_stream_ink(cx, es, 0, fuel);
    lemma_concat_reads(stream(cx, es, 0, fuel));
}

proof fn lemma_source_split(t: &Tree, a: int, b: int, c: int)
    requires
        0 <= a <= b <= c,
    ensures
        t.source(a, c) == t.source(a, b) + t.source(b, c),
    decreases c - b,
{
    if b == c {
        assert(t.source(b, c) =~= Seq::<char>::empty());
        assert(t.source(a, b) + t.source(b, c) =~= t.source(a, b));
    } else {
        lemma_source_split(t, a, b, c - 1);
        if t.tok(c - 1) {
            assert(t.source(a, c) =~= t.source(a, b) + t.source(b, c));
        }
    }
}

proof fn lemma_sources_front(t: &Tree, first: usize, rest: Seq<usize>, i: int)
    requires
        0 <= i <= rest.len(),
    ensures
        sources(t, seq![first] + rest, i + 1) == sources(t, rest, i),
    decreases rest.len() - i,
{
    if i < rest.len() {
        lemma_sources_front(t, first, rest, i + 1);
    }
}

proof fn lemma_siblings_source(t: &Tree, p: int, i: int)
    requires
        t.wf(),
        0 <= p < i <= t.end(p),
        p < t.n(),
        i < t.end(p) ==> t.up(i) == p,
    ensures
        sources(t, t.siblings(i, t.end(p)), 0) == t.source(i, t.end(p)),
    decreases t.end(p) - i,
{
    let hi = t.end(p);
    if i < hi {
        let j = t.end(i);
        assert(t.end(i) <= t.end(p));
        if j < hi {
            lemma_next_has_parent(t, i);
        }
        lemma_siblings_source(t, p, j);
        lemma_source_split(t, i, j, hi);
        lemma_sources_front(t, i as usize, t.siblings(j, hi), 0);
        let all = seq![i as usize] + t.siblings(j, hi);
        assert(all[0] == i as usize);
        assert(sources(t, all, 0) == t.src(i) + sources(t, all, 1));
    } else {
        assert(t.siblings(i, hi) =~= Seq::<usize>::empty());
        assert(t.source(i, hi) =~= Seq::<char>::empty());
    }
}

/// The source of a node is that of its children, one after the other.
pub proof fn children_make_up_their_parent(t: &Tree, n: int)
    requires
        t.wf(),
        0 <= n < t.n(),
        !t.tok(n),
    ensures
        sources(t, t.kids(n), 0) == t.src(n),
{
    if n + 1 < t.end(n) {
        assert(n <= t.up(n + 1));
    }
    lemma_siblings_source(t, n, n + 1);
    lemma_source_split(t, n, n + 1, t.end(n));
    assert(t.source(n, n) =~= Seq::<char>::empty());
    assert(t.source(n, n + 1) =~= Seq::<char>::empty());
    assert(t.source(n, n + 1) + t.source(n + 1, t.end(n)) =~= t.source(n + 1, t.end(n)));
}

/// A node that is laid out child by child keeps its ink where each of its children does.
pub proof fn nodes_laid_out_child_by_child_keep_the_ink(cx: LowerCtx, n: int, fuel: nat)
    requires
        cx.t.wf(),
        gaps_are_white(cx.t, cx.is_dtx),
        0 < n < cx.t.n(),
        !cx.t.tok(n),
        cx.range is None,
        fuel > 0,
        node_path(cx, n) == NodePath::Laid,
        expl_node(cx, n, fuel) is None,
        inline_node(cx, n, fuel) is None,
        cx.t.k(n) != SyntaxKind::Paragraph,
        cx.t.k(n) != SyntaxKind::Environment,
        cx.t.k(n) != SyntaxKind::Root,
        forall|k: int|
            0 <= k < cx.t.kids(n).len() && !cx.t.tok(#[trigger] cx.t.kids(n)[k] as int) ==> keeps_own_ink(
                cx,
                cx.t.kids(n)[k] as int,
                (fuel - 1) as nat,
            ),
    ensures
        keeps_own_ink(cx, n, fuel),
{
    let es = cx.t.kids(n);
    lemma_kids(cx.t, n);
    assert forall|k: int| 0 <= k < es.len() implies (#[trigger] es[k]) < cx.t.n() by {
        let c = cx.t.kids(n)[k];
        assert(c < cx.t.end(n) <= cx.t.n());
    }
    streams_keep_the_ink(cx, es, (fuel - 1) as nat);
    children_make_up_their_parent(cx.t, n);
    assert(structure(cx, n, fuel) == streamed(cx, es, (fuel - 1) as nat));
    assert(laid(cx, n, fuel) == structure(cx, n, fuel));
    assert(unchecked(cx, n, fuel) == laid(cx, n, fuel));
    lemma_checked_ink(cx, n, unchecked(cx, n, fuel));
}

proof fn lemma_sources_from(t: &Tree, es: Seq<usize>, from: int, i: int)
    requires
        0 <= from,
        0 <= i <= es.len() - from,
    ensures
        sources(t, es.subrange(from, es.len() as int), i) == sources(t, es, from + i),
    decreases es.len() - from - i,
{
    if i < es.len() - from {
        lemma_sources_from(t, es, from, i + 1);
    }
}

proof fn lemma_indentation_ink(cx: LowerCtx, es: Seq<usize>, i: int)
    requires
        cx.t.wf(),
        gaps_are_white(cx.t, cx.is_dtx),
        0 <= i <= es.len(),
        forall|k: int| 0 <= k < es.len() ==> (#[trigger] es[k]) < cx.t.n(),
    ensures
        i <= indentation_end(cx, es, i) <= es.len(),
        ink(sources(cx.t, es, i), cx.is_dtx) == ink(sources(cx.t, es, indentation_end(cx, es, i)), cx.is_dtx),
    decreases es.len() - i,
{
    if i < es.len() && cx.t.tok_is(es[i] as int, SyntaxKind::Whitespace) && !cx.off(es[i] as int) {
        let e = es[i] as int;
        lemma_indentation_ink(cx, es, i + 1);
        lemma_token_source(cx.t, e);
        assert(cx.t.gap(e));
        ink_of_a_sum(cx.t.src(e), sources(cx.t, es, i + 1), cx.is_dtx);
        assert(ink(sources(cx.t, es, i), cx.is_dtx) =~= ink(sources(cx.t, es, i + 1), cx.is_dtx));
    }
}

proof fn lemma_kids_are_blocks(cx: LowerCtx, n: int, es: Seq<usize>, fuel: nat)
    requires
        cx.t.wf(),
        0 <= n < cx.t.n(),
        cx.range is None,
        !cx.in_doc_region,
        !cx.margin_probe,
        cx.omitted is None,
        cx.t.k(n) == SyntaxKind::Root || cx.t.k(n) == SyntaxKind::Environment,
        forall|k: int| 0 <= k < es.len() ==> cx.t.kids(n).contains(#[trigger] es[k]),
    ensures
        forall|k: int| 0 <= k < es.len() ==> (#[trigger] es[k]) < cx.t.n(),
        forall|k: int| 0 <= k < es.len() ==> keeps_own_ink(cx, #[trigger] es[k] as int, fuel),
{
    lemma_kids(cx.t, n);
    assert forall|k: int| 0 <= k < es.len() implies (#[trigger] es[k]) < cx.t.n() && keeps_own_ink(cx, es[k] as int, fuel) by {
        assert(cx.t.kids(n).contains(es[k]));
        let j = choose|j: int| 0 <= j < cx.t.kids(n).len() && cx.t.kids(n)[j] == es[k];
        let c = cx.t.kids(n)[j];
        assert(n < c < cx.t.end(n) && cx.t.up(c as int) == n);
        assert(cx.t.end(n) <= cx.t.n());
        blocks_keep_the_ink(cx, c as int, fuel);
    }
}

/// A document keeps the ink of its source for the sake of its blocks alone: were the document as a
/// whole not held against its source, its layout would still have that ink.
pub proof fn documents_keep_the_ink_of_their_blocks(cx: LowerCtx, fuel: nat)
    requires
        cx.t.wf(),
        gaps_are_white(cx.t, cx.is_dtx),
        cx.t.k(0) == SyntaxKind::Root,
        cx.range is None,
        !cx.in_doc_region,
        !cx.margin_probe,
        cx.omitted is None,
        fuel > 0,
    ensures
        ink(flat_text(document(cx, 0, fuel)), cx.is_dtx) == ink(cx.t.src(0), cx.is_dtx),
{
    let es = cx.t.kids(0);
    let less = (fuel - 1) as nat;
    assert forall|k: int| 0 <= k < es.len() implies cx.t.kids(0).contains(#[trigger] es[k]) by {}
    lemma_kids_are_blocks(cx, 0, es, less);
    lemma_indentation_ink(cx, es, 0);
    let from = indentation_end(cx, es, 0);
    let rest = es.subrange(from, es.len() as int);
    assert forall|k: int| 0 <= k < rest.len() implies cx.t.kids(0).contains(#[trigger] rest[k]) by {
        assert(rest[k] == es[from + k]);
    }
    lemma_kids_are_blocks(cx, 0, rest, less);
    streams_keep_the_ink(cx, rest, less);
    lemma_sources_from(cx.t, es, from, 0);
    children_make_up_their_parent(cx.t, 0);
}

} // verus!

//! What the searches along a line and along a list of elements find.

use vstd::prelude::*;

use crate::context::LowerCtx;
use crate::predicates::{
    command_only, comment_ends, frame_before, framing, is_inline, is_label, is_sectioning, label_next, label_run,
    line_opens_with_margin, margin_before,
};
use crate::prose::{guard_end, spans_lines};
use crate::syntax::{collapsible, SyntaxKind, Tree};

verus! {

// ---- tokens --------------------------------------------------------------------------------

/// Element `q` is nothing but white space or a closing delimiter.
pub open spec fn closes_or_parts(t: &Tree, close: SyntaxKind, q: int) -> bool {
    !t.tok(q) || t.k(q) == close || collapsible(t.k(q))
}

/// Element `c` is a comment, and up to `i` nothing follows it but white space and the closing
/// delimiter.
pub open spec fn last_comment(t: &Tree, close: SyntaxKind, c: int, i: int) -> bool {
    &&& c <= i
    &&& t.tok_is(c, SyntaxKind::Comment)
    &&& forall|q: int| c < q <= i ==> #[trigger] closes_or_parts(t, close, q)
}

/// A node ends in a comment exactly where nothing but white space and the closing delimiter stands
/// behind a comment of it.
pub proof fn a_node_ends_in_its_last_comment(t: &Tree, n: int, close: SyntaxKind, i: int)
    ensures
        comment_ends(t, n, close, i) <==> exists|c: int| n < c && #[trigger] last_comment(t, close, c, i),
    decreases i - n,
{
    if i > n {
        a_node_ends_in_its_last_comment(t, n, close, i - 1);
        if t.tok_is(i, SyntaxKind::Comment) {
            assert(last_comment(t, close, i, i));
        } else {
            if closes_or_parts(t, close, i) && comment_ends(t, n, close, i - 1) {
                let c = choose|c: int| n < c && #[trigger] last_comment(t, close, c, i - 1);
                assert forall|q: int| c < q <= i implies #[trigger] closes_or_parts(t, close, q) by {}
                assert(last_comment(t, close, c, i));
            }
            if exists|c: int| n < c && #[trigger] last_comment(t, close, c, i) {
                let c = choose|c: int| n < c && #[trigger] last_comment(t, close, c, i);
                assert(c != i);
                assert(closes_or_parts(t, close, i));
                assert forall|q: int| c < q <= i - 1 implies #[trigger] closes_or_parts(t, close, q) by {}
                assert(last_comment(t, close, c, i - 1));
            }
        }
    }
}

/// Element `q` is white space within a line, or no token.
pub open spec fn is_blank(t: &Tree, q: int) -> bool {
    !t.tok(q) || t.k(q) == SyntaxKind::Whitespace
}

/// Token `m` is no white space, and nothing but white space stands between it and `i`.
pub open spec fn token_before(t: &Tree, m: int, i: int) -> bool {
    &&& 0 <= m < i
    &&& !is_blank(t, m)
    &&& forall|q: int| m < q < i ==> #[trigger] is_blank(t, q)
}

proof fn lemma_token_before(t: &Tree, m: int, i: int)
    requires
        token_before(t, m, i),
    ensures
        margin_before(t, i) <==> t.k(m) == SyntaxKind::DocMargin,
        frame_before(t, i) <==> t.k(m) == SyntaxKind::DocMargin || t.k(m) == SyntaxKind::Guard,
    decreases i,
{
    if m < i - 1 {
        assert(is_blank(t, i - 1));
        lemma_token_before(t, m, i - 1);
    }
}

/// A place stands behind the margin exactly where the token before it, white space left out, is a
/// margin. It is framed exactly where that token is a margin or a guard.
pub proof fn a_margin_is_the_token_before(t: &Tree, m: int, i: int)
    requires
        token_before(t, m, i),
    ensures
        margin_before(t, i) <==> t.tok_is(m, SyntaxKind::DocMargin),
        frame_before(t, i) <==> t.tok_is(m, SyntaxKind::DocMargin) || t.tok_is(m, SyntaxKind::Guard),
{
    lemma_token_before(t, m, i);
}

/// Element `m` is a margin or a guard, and no line break stands between it and `i`.
pub open spec fn margin_of_line(t: &Tree, m: int, i: int) -> bool {
    &&& 0 <= m < i
    &&& t.tok_is(m, SyntaxKind::DocMargin) || t.tok_is(m, SyntaxKind::Guard)
    &&& forall|q: int| m < q < i ==> !#[trigger] t.tok_is(q, SyntaxKind::Newline)
}

/// A line has a margin exactly where a margin or a guard stands on it before the place.
pub proof fn a_line_has_the_margin_that_stands_on_it(t: &Tree, i: int)
    ensures
        line_opens_with_margin(t, i) <==> exists|m: int| #[trigger] margin_of_line(t, m, i),
    decreases i,
{
    if i > 0 {
        a_line_has_the_margin_that_stands_on_it(t, i - 1);
        let last = i - 1;
        if t.tok_is(last, SyntaxKind::DocMargin) || t.tok_is(last, SyntaxKind::Guard) {
            assert(margin_of_line(t, last, i));
        } else {
            if exists|m: int| #[trigger] margin_of_line(t, m, i) {
                let m = choose|m: int| #[trigger] margin_of_line(t, m, i);
                assert(m != last);
                assert(!t.tok_is(last, SyntaxKind::Newline));
                assert forall|q: int| m < q < last implies !#[trigger] t.tok_is(q, SyntaxKind::Newline) by {}
                assert(margin_of_line(t, m, last));
            }
            if !t.tok_is(last, SyntaxKind::Newline) && line_opens_with_margin(t, last) {
                let m = choose|m: int| #[trigger] margin_of_line(t, m, last);
                assert forall|q: int| m < q < i implies !#[trigger] t.tok_is(q, SyntaxKind::Newline) by {}
                assert(margin_of_line(t, m, i));
            }
        }
    }
}

// ---- elements ------------------------------------------------------------------------------

/// The line that starts at `i` of a list of elements ends at `end`: at a line break, at a comment or
/// at the end of the list.
pub open spec fn line_ends_at(cx: LowerCtx, es: Seq<usize>, end: int) -> bool {
    end == es.len() || cx.t.tok_is(es[end] as int, SyntaxKind::Newline) || cx.t.tok_is(es[end] as int, SyntaxKind::Comment)
}

/// Element `k` of a list is a command outside running text.
pub open spec fn standing_command(cx: LowerCtx, es: Seq<usize>, k: int) -> bool {
    cx.t.node_is(es[k] as int, SyntaxKind::Command) && !is_inline(cx.sig(es[k] as int))
}

/// Element `k` of a list is a command outside running text, white space, or a margin.
pub open spec fn on_command_line(cx: LowerCtx, es: Seq<usize>, k: int) -> bool {
    let e = es[k] as int;
    ||| cx.t.tok_is(e, SyntaxKind::Whitespace)
    ||| cx.is_dtx && cx.t.tok_is(e, SyntaxKind::DocMargin)
    ||| standing_command(cx, es, k)
}

proof fn lemma_command_only(cx: LowerCtx, es: Seq<usize>, i: int, saw: bool, end: int)
    requires
        0 <= i <= end <= es.len(),
        line_ends_at(cx, es, end),
        forall|k: int| i <= k < end ==> !#[trigger] line_ends_at(cx, es, k),
    ensures
        command_only(cx, es, i, saw) <==> (forall|k: int| i <= k < end ==> #[trigger] on_command_line(cx, es, k)) && (
        saw || exists|k: int| i <= k < end && #[trigger] standing_command(cx, es, k)),
    decreases end - i,
{
    if i < end {
        assert(!line_ends_at(cx, es, i));
        let now = saw || standing_command(cx, es, i);
        lemma_command_only(cx, es, i + 1, now, end);
        if forall|k: int| i <= k < end ==> #[trigger] on_command_line(cx, es, k) {
            assert(on_command_line(cx, es, i));
        }
        if on_command_line(cx, es, i) && (forall|k: int| i + 1 <= k < end ==> #[trigger] on_command_line(cx, es, k)) {
            assert forall|k: int| i <= k < end implies #[trigger] on_command_line(cx, es, k) by {}
        }
    }
}

/// A line is one of commands exactly where nothing else stands on it but white space and a margin,
/// and there is a command. Commands of running text make no such line.
pub proof fn a_command_line_has_commands_alone(cx: LowerCtx, es: Seq<usize>, i: int, end: int)
    requires
        0 <= i <= end <= es.len(),
        line_ends_at(cx, es, end),
        forall|k: int| i <= k < end ==> !#[trigger] line_ends_at(cx, es, k),
    ensures
        command_only(cx, es, i, false) <==> (forall|k: int| i <= k < end ==> #[trigger] on_command_line(cx, es, k)) && (
        exists|k: int| i <= k < end && #[trigger] standing_command(cx, es, k)),
{
    lemma_command_only(cx, es, i, false, end);
}

/// A label follows exactly where the first element that is no framing is one.
pub proof fn a_label_follows_behind_framing(cx: LowerCtx, es: Seq<usize>, i: int, k: int)
    requires
        0 <= i <= k < es.len(),
        !framing(cx, es[k] as int),
        forall|q: int| i <= q < k ==> framing(cx, #[trigger] es[q] as int),
    ensures
        label_next(cx, es, i) <==> is_label(cx.t, es[k] as int),
    decreases k - i,
{
    if i < k {
        assert(framing(cx, es[i] as int));
        a_label_follows_behind_framing(cx, es, i + 1, k);
    }
}

/// A label belongs to a section exactly where the section is the last thing before it that is
/// neither framing nor another label.
pub proof fn labels_belong_to_the_section_before_them(cx: LowerCtx, es: Seq<usize>, k: int, i: int)
    requires
        0 <= k < i <= es.len(),
        !framing(cx, es[k] as int),
        !is_label(cx.t, es[k] as int),
        forall|q: int| k < q < i ==> framing(cx, #[trigger] es[q] as int) || is_label(cx.t, es[q] as int),
        es[k] > 0,
        cx.t.k(cx.t.up(es[k] as int)) == SyntaxKind::Paragraph,
    ensures
        label_run(cx, es, i) <==> cx.t.node_is(es[k] as int, SyntaxKind::Command) && is_sectioning(cx.sig(es[k] as int)),
    decreases i - k,
{
    if k < i - 1 {
        assert(framing(cx, es[i - 1] as int) || is_label(cx.t, es[i - 1] as int));
        labels_belong_to_the_section_before_them(cx, es, k, i - 1);
    }
}

/// The line of a guard ends at the first white space that holds a line break, and where something
/// else spans lines before that it is taken as no line.
pub proof fn the_line_of_a_guard_ends_at_the_line_break(t: &Tree, es: Seq<usize>, i: int, k: int)
    requires
        0 <= i <= k <= es.len(),
        forall|q: int| i <= q < k ==> !spans_lines(t, #[trigger] es[q] as int),
        k < es.len() ==> spans_lines(t, es[k] as int),
    ensures
        guard_end(t, es, i) == (if k == es.len() || t.gap(es[k] as int) {
            Some(k)
        } else {
            None
        }),
    decreases k - i,
{
    if i < k {
        assert(!spans_lines(t, es[i] as int));
        the_line_of_a_guard_ends_at_the_line_break(t, es, i + 1, k);
    }
}

} // verus!

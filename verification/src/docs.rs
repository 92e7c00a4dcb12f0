//! Documentation that stands in the source behind a margin.
//!
//! In documented source each line of documentation starts with a percent sign in the first
//! column, its margin. A line without one is code.

use vstd::prelude::*;

use crate::context::{in_tree, LowerCtx};
use crate::ir::{concat2, verbatim, Ir, Layout};
use crate::predicates::{
    contains_doc_margin, contains_node, contains_token, enclosing_environment, env_around,
    frame_before, frame_precedes_on_line, has_node, has_tok, has_verbatim_body, is_macrocode,
    is_macrocode_env, margin_before, margin_inside, margin_precedes_on_line, verbatim_body,
};
use crate::syntax::{ExplToggle, SyntaxKind, Tree};
use crate::text::{contains_char, contains_text, has_part};

verus! {

/// The first element of a list from `i` on that is a token other than white space.
pub open spec fn first_content_token(t: &Tree, es: Seq<usize>, i: int) -> Option<usize>
    decreases es.len() - i,
{
    if i < 0 || i >= es.len() {
        None
    } else if t.tok(es[i] as int) && !t.gap(es[i] as int) {
        Some(es[i])
    } else {
        first_content_token(t, es, i + 1)
    }
}

fn first_content_token_of(cx: LowerCtx, es: &Vec<usize>) -> (r: Option<usize>)
    requires
        in_tree(cx.t, es@),
    ensures
        r == first_content_token(cx.t, es@, 0),
        r matches Some(e) ==> e < cx.t.n(),
{
    let mut i: usize = 0;
    while i < es.len()
        invariant
            in_tree(cx.t, es@),
            first_content_token(cx.t, es@, i as int) == first_content_token(cx.t, es@, 0),
        decreases es@.len() - i,
    {
        if cx.t.is_token(es[i]) && !cx.t.is_gap(es[i]) {
            return Some(es[i]);
        }
        i = i + 1;
    }
    None
}

/// Whether the paragraph is documentation: the first of its own tokens that is no white space is
/// a margin, or a margin stands before it. The token may stand on a later line than the paragraph
/// starts on, behind a node that comes first.
pub open spec fn doc_paragraph(t: &Tree, n: int) -> bool {
    (match first_content_token(t, t.kids(n), 0) {
        Some(e) => t.k(e as int) == SyntaxKind::DocMargin,
        None => false,
    }) || match t.head(n) {
        Some(i) => margin_before(t, i as int),
        None => false,
    }
}

pub fn is_dtx_doc_paragraph(cx: LowerCtx, n: usize) -> (r: bool)
    requires
        cx.ok(),
        n < cx.t.n(),
    ensures
        r == doc_paragraph(cx.t, n as int),
{
    let margin = match first_content_token_of(cx, &cx.children(n)) {
        Some(e) => cx.t.kind(e) == SyntaxKind::DocMargin,
        None => false,
    };
    proof {
        reveal(LowerCtx::ok);
    }
    margin || match cx.t.first_token(n) {
        Some(i) => margin_precedes_on_line(cx, i),
        None => false,
    }
}

/// The first token of a stretch of the tree that is not white space.
pub open spec fn first_content(t: &Tree, i: int, hi: int) -> Option<usize>
    decreases hi - i,
{
    if i < 0 || i >= hi {
        None
    } else if t.tok(i) && !t.gap(i) {
        Some(i as usize)
    } else {
        first_content(t, i + 1, hi)
    }
}

pub fn first_content_in(cx: LowerCtx, n: usize) -> (r: Option<usize>)
    requires
        cx.ok(),
        n < cx.t.n(),
    ensures
        r == first_content(cx.t, n as int, cx.t.end(n as int)),
        r matches Some(i) ==> i < cx.t.n() && cx.t.tok(i as int),
{
    let hi: usize = cx.t.subtree_end(n);
    proof {
        reveal(LowerCtx::ok);
        assert(cx.t.end(n as int) <= cx.t.n());
    }
    let mut i: usize = n;
    while i < hi
        invariant
            hi <= cx.t.n(),
            hi == cx.t.end(n as int),
            first_content(cx.t, i as int, hi as int) == first_content(cx.t, n as int, hi as int),
        decreases hi - i,
    {
        if cx.t.is_token(i) && !cx.t.is_gap(i) {
            return Some(i);
        }
        i = i + 1;
    }
    None
}

/// Whether the paragraph starts behind a margin.
pub open spec fn starts_margined(t: &Tree, n: int) -> bool {
    match first_content(t, n, t.end(n)) {
        Some(i) => t.k(i as int) == SyntaxKind::DocMargin || margin_before(t, i as int),
        None => false,
    }
}

pub fn dtx_paragraph_starts_margined(cx: LowerCtx, n: usize) -> (r: bool)
    requires
        cx.ok(),
        n < cx.t.n(),
    ensures
        r == starts_margined(cx.t, n as int),
{
    match first_content_in(cx, n) {
        Some(i) => cx.t.kind(i) == SyntaxKind::DocMargin || margin_precedes_on_line(cx, i),
        None => false,
    }
}

/// Whether only blanks stand from `i` on to the end of the line.
pub open spec fn line_ends(t: &Tree, i: int) -> bool
    decreases t.n() - i,
{
    if i < 0 || i >= t.n() {
        true
    } else if !t.tok(i) || t.k(i) == SyntaxKind::Whitespace {
        line_ends(t, i + 1)
    } else {
        t.k(i) == SyntaxKind::Newline
    }
}

fn line_ends_at(cx: LowerCtx, i: usize) -> (r: bool)
    ensures
        r == line_ends(cx.t, i as int),
{
    let mut j: usize = i;
    while j < cx.t.len()
        invariant
            line_ends(cx.t, j as int) == line_ends(cx.t, i as int),
        decreases cx.t.n() - j,
    {
        if cx.t.is_token(j) && cx.t.kind(j) != SyntaxKind::Whitespace {
            return cx.t.kind(j) == SyntaxKind::Newline;
        }
        j = j + 1;
    }
    true
}

/// Whether the token `i` is a line break of the node without a margin behind it.
pub open spec fn unmargined_break(t: &Tree, n: int, i: int) -> bool {
    t.tok_is(i, SyntaxKind::Newline) && !match t.next_tok(i) {
        Some(j) => j < t.end(n) && t.k(j as int) == SyntaxKind::DocMargin,
        None => false,
    }
}

/// Whether an environment that is reproduced byte by byte is the node or stands in it.
pub open spec fn holds_verbatim(t: &Tree, n: int) -> bool {
    exists|i: int|
        n <= i < t.end(n) && #[trigger] t.node_is(i, SyntaxKind::Environment) && (t.named(i, "verbatim"@) || t.named(
            i,
            "verbatim*"@,
        ))
}

/// Whether the header of an environment in the node spans lines.
pub open spec fn holds_broken_begin(t: &Tree, n: int) -> bool {
    exists|i: int| n <= i < t.end(n) && #[trigger] t.node_is(i, SyntaxKind::Begin) && has_tok(t, i, SyntaxKind::Newline)
}

/// Whether the node is an environment of documentation alone, each of its lines with a margin.
pub open spec fn doc_region(cx: LowerCtx, n: int) -> bool {
    let t = cx.t;
    &&& cx.is_dtx && !cx.in_doc_region && t.node_is(n, SyntaxKind::Environment)
    &&& !verbatim_body(t, n) && !holds_verbatim(t, n) && !has_part(t.src(n), "\\begin{verbatim"@)
    &&& !holds_broken_begin(t, n) && !has_tok(t, n, SyntaxKind::Guard) && !has_tok(t, n, SyntaxKind::Comment)
    &&& !is_macrocode(t, n)
    &&& match t.head(n) {
        Some(i) => t.k(i as int) == SyntaxKind::DocMargin || margin_before(t, i as int),
        None => false,
    }
    &&& line_ends(t, t.end(n))
    &&& forall|i: int| n <= i < t.end(n) ==> !#[trigger] unmargined_break(t, n, i)
}

fn contains_verbatim_env(cx: LowerCtx, n: usize) -> (r: bool)
    requires
        cx.ok(),
        n < cx.t.n(),
    ensures
        r == holds_verbatim(cx.t, n as int),
{
    let hi: usize = cx.t.subtree_end(n);
    proof {
        reveal(LowerCtx::ok);
        assert(cx.t.end(n as int) <= cx.t.n());
    }
    let mut i: usize = n;
    while i < hi
        invariant
            hi <= cx.t.n(),
            hi == cx.t.end(n as int),
            n <= i,
            forall|j: int|
                n <= j < i && #[trigger] cx.t.node_is(j, SyntaxKind::Environment) ==> !(cx.t.named(j, "verbatim"@)
                    || cx.t.named(j, "verbatim*"@)),
        decreases hi - i,
    {
        if cx.t.is_node(i, SyntaxKind::Environment) && (cx.t.is_named(i, "verbatim") || cx.t.is_named(i, "verbatim*")) {
            return true;
        }
        i = i + 1;
    }
    false
}

fn contains_broken_begin(cx: LowerCtx, n: usize) -> (r: bool)
    requires
        cx.ok(),
        n < cx.t.n(),
    ensures
        r == holds_broken_begin(cx.t, n as int),
{
    let hi: usize = cx.t.subtree_end(n);
    proof {
        reveal(LowerCtx::ok);
        assert(cx.t.end(n as int) <= cx.t.n());
    }
    let mut i: usize = n;
    while i < hi
        invariant
            cx.ok(),
            hi <= cx.t.n(),
            hi == cx.t.end(n as int),
            n <= i,
            forall|j: int|
                n <= j < i && #[trigger] cx.t.node_is(j, SyntaxKind::Begin) ==> !has_tok(cx.t, j, SyntaxKind::Newline),
        decreases hi - i,
    {
        if cx.t.is_node(i, SyntaxKind::Begin) && contains_token(cx, i, SyntaxKind::Newline) {
            return true;
        }
        i = i + 1;
    }
    false
}

fn every_break_is_margined(cx: LowerCtx, n: usize) -> (r: bool)
    requires
        cx.ok(),
        n < cx.t.n(),
    ensures
        r == forall|i: int| n <= i < cx.t.end(n as int) ==> !#[trigger] unmargined_break(cx.t, n as int, i),
{
    let hi: usize = cx.t.subtree_end(n);
    proof {
        reveal(LowerCtx::ok);
        assert(cx.t.end(n as int) <= cx.t.n());
    }
    let mut i: usize = n;
    while i < hi
        invariant
            cx.t.wf(),
            hi <= cx.t.n(),
            hi == cx.t.end(n as int),
            n <= i <= hi,
            forall|j: int| n <= j < i ==> !#[trigger] unmargined_break(cx.t, n as int, j),
        decreases hi - i,
    {
        if cx.t.token_is(i, SyntaxKind::Newline) {
            let fine = match cx.t.next_token(i) {
                Some(j) => j < hi && cx.t.kind(j) == SyntaxKind::DocMargin,
                None => false,
            };
            if !fine {
                assert(unmargined_break(cx.t, n as int, i as int));
                return false;
            }
        }
        assert(!unmargined_break(cx.t, n as int, i as int));
        i = i + 1;
    }
    true
}

pub fn dtx_doc_region(cx: LowerCtx, n: usize) -> (r: bool)
    requires
        cx.ok(),
        n < cx.t.n(),
    ensures
        r == doc_region(cx, n as int),
{
    proof {
        reveal(LowerCtx::ok);
        assert(n < cx.t.end(n as int) <= cx.t.n());
    }
    if !cx.is_dtx || cx.in_doc_region || !cx.t.is_node(n, SyntaxKind::Environment) || has_verbatim_body(cx, n)
        || contains_verbatim_env(cx, n) || contains_text(cx.t.source_text(n).as_str(), "\\begin{verbatim")
        || contains_broken_begin(cx, n) || contains_token(cx, n, SyntaxKind::Guard) || contains_token(
        cx,
        n,
        SyntaxKind::Comment,
    ) || is_macrocode_env(cx, n) {
        return false;
    }
    let margined = match cx.t.first_token(n) {
        Some(i) => cx.t.kind(i) == SyntaxKind::DocMargin || margin_precedes_on_line(cx, i),
        None => false,
    };
    margined && line_ends_at(cx, cx.t.subtree_end(n)) && every_break_is_margined(cx, n)
}

/// Whether the header of the environment spans lines.
pub open spec fn begin_breaks(t: &Tree, n: int) -> bool {
    t.node_is(n, SyntaxKind::Environment) && match t.kid(n, SyntaxKind::Begin) {
        Some(b) => has_tok(t, b as int, SyntaxKind::Newline),
        None => false,
    }
}

pub fn environment_begin_has_newline(cx: LowerCtx, n: usize) -> (r: bool)
    requires
        cx.ok(),
        n < cx.t.n(),
    ensures
        r == begin_breaks(cx.t, n as int),
{
    proof {
        reveal(LowerCtx::ok);
    }
    cx.t.is_node(n, SyntaxKind::Environment) && match cx.t.nth_child(n, SyntaxKind::Begin, 0) {
        Some(b) => contains_token(cx, b, SyntaxKind::Newline),
        None => false,
    }
}

/// Whether the header of the environment has a line to itself, behind a margin or a guard.
pub open spec fn framed(t: &Tree, n: int) -> bool {
    t.node_is(n, SyntaxKind::Environment) && match t.kid(n, SyntaxKind::Begin) {
        Some(b) => !(match t.tail(b as int) {
            Some(l) => match t.next_tok(l as int) {
                Some(j) => t.k(j as int) != SyntaxKind::Newline,
                None => false,
            },
            None => false,
        }) && match t.head(b as int) {
            Some(i) => frame_before(t, i as int),
            None => false,
        },
        None => false,
    }
}

pub fn is_margin_framed(cx: LowerCtx, n: usize) -> (r: bool)
    requires
        cx.ok(),
        n < cx.t.n(),
    ensures
        r == framed(cx.t, n as int),
{
    proof {
        reveal(LowerCtx::ok);
    }
    cx.t.is_node(n, SyntaxKind::Environment) && match cx.t.nth_child(n, SyntaxKind::Begin, 0) {
        Some(b) => {
            assert(cx.t.end(b as int) <= cx.t.n());
            let followed = match cx.t.last_token(b) {
                Some(l) => match cx.t.next_token(l) {
                    Some(j) => cx.t.kind(j) != SyntaxKind::Newline,
                    None => false,
                },
                None => false,
            };
            !followed && match cx.t.first_token(b) {
                Some(i) => frame_precedes_on_line(cx, i),
                None => false,
            }
        },
        None => false,
    }
}

/// Whether the node is documented code whose header has a line to itself.
pub open spec fn framed_macrocode(t: &Tree, n: int) -> bool {
    is_macrocode(t, n) && framed(t, n)
}

pub fn is_margin_framed_macrocode(cx: LowerCtx, n: usize) -> (r: bool)
    requires
        cx.ok(),
        n < cx.t.n(),
    ensures
        r == framed_macrocode(cx.t, n as int),
{
    is_macrocode_env(cx, n) && is_margin_framed(cx, n)
}

/// The sibling from `e` on that is not blanks.
pub open spec fn past_blanks(t: &Tree, e: Option<usize>) -> Option<usize>
    decreases (match e { Some(e) => t.n() - e, None => 0 }),
{
    match e {
        Some(i) => if t.tok_is(i as int, SyntaxKind::Whitespace) {
            match t.next_sib(i as int) {
                Some(j) => if i < j < t.n() {
                    past_blanks(t, Some(j))
                } else {
                    None
                },
                None => None,
            }
        } else {
            e
        },
        None => None,
    }
}

/// The sibling behind the margin and the blanks that follow it.
pub open spec fn behind_margin(t: &Tree, e: int) -> Option<usize> {
    past_blanks(t, t.next_sib(e))
}

/// The sibling behind a margin needs no more fuel than the margin may have.
pub fn element_behind_margin(cx: LowerCtx, e: usize) -> (r: Option<usize>)
    requires
        cx.ok(),
        e < cx.t.n(),
    ensures
        r == behind_margin(cx.t, e as int),
        r matches Some(j) ==> e < j < cx.t.n() && forall|fuel: nat|
            #[trigger] crate::context::room(cx.t, e as int, fuel) ==> crate::context::room(cx.t, j as int, fuel),
{
    proof {
        reveal(LowerCtx::ok);
    }
    let mut at: Option<usize> = cx.t.next_sibling(e);
    let ghost start = at;
    proof {
        if at is Some {
            crate::context::lemma_next_has_parent(cx.t, e as int);
            assert(cx.t.end(at->0 as int) <= cx.t.end(cx.t.up(at->0 as int)));
        }
    }
    loop
        invariant
            cx.t.wf(),
            e < cx.t.n(),
            start == cx.t.next_sib(e as int),
            past_blanks(cx.t, at) == past_blanks(cx.t, start),
            at matches Some(j) ==> 0 < e < j < cx.t.n() && cx.t.up(j as int) == cx.t.up(e as int),
        decreases (match at { Some(j) => cx.t.n() - j, None => 0 }),
    {
        match at {
            None => {
                return None;
            },
            Some(j) => {
                if !cx.t.token_is(j, SyntaxKind::Whitespace) {
                    proof {
                        let p = cx.t.up(j as int);
                        assert(cx.t.end(j as int) <= cx.t.end(p));
                        assert(p < j);
                    }
                    return Some(j);
                }
                let next = cx.t.next_sibling(j);
                proof {
                    if next is Some {
                        crate::context::lemma_next_has_parent(cx.t, j as int);
                    }
                }
                match next {
                    Some(k) => {
                        at = Some(k);
                    },
                    None => {
                        return None;
                    },
                }
            },
        }
    }
}

/// The first element of a list from `i` on that is not white space.
pub open spec fn first_solid(t: &Tree, es: Seq<usize>, i: int) -> Option<usize>
    decreases es.len() - i,
{
    if i < 0 || i >= es.len() {
        None
    } else if t.gap(es[i] as int) {
        first_solid(t, es, i + 1)
    } else {
        Some(es[i])
    }
}

pub fn first_solid_of(cx: LowerCtx, es: &Vec<usize>) -> (r: Option<usize>)
    requires
        in_tree(cx.t, es@),
    ensures
        r == first_solid(cx.t, es@, 0),
        r matches Some(e) ==> e < cx.t.n(),
{
    let mut i: usize = 0;
    while i < es.len()
        invariant
            in_tree(cx.t, es@),
            first_solid(cx.t, es@, i as int) == first_solid(cx.t, es@, 0),
        decreases es@.len() - i,
    {
        if !cx.t.is_gap(es[i]) {
            return Some(es[i]);
        }
        i = i + 1;
    }
    None
}

/// Whether a region of documentation starts behind the margin, at once or in a paragraph.
pub open spec fn margin_starts_region(cx: LowerCtx, e: int) -> bool {
    cx.t.tok_is(e, SyntaxKind::DocMargin) && !cx.in_doc_region && match behind_margin(cx.t, e) {
        Some(n) => !cx.t.tok(n as int) && (doc_region(cx, n as int) || (cx.t.k(n as int) == SyntaxKind::Paragraph
            && match first_solid(cx.t, cx.t.kids(n as int), 0) {
            Some(c) => !cx.t.tok(c as int) && doc_region(cx, c as int),
            None => false,
        })),
        None => false,
    }
}

pub fn margin_starts_dtx_doc_region(cx: LowerCtx, e: usize) -> (r: bool)
    requires
        cx.ok(),
        e < cx.t.n(),
    ensures
        r == margin_starts_region(cx, e as int),
{
    if !cx.t.token_is(e, SyntaxKind::DocMargin) || cx.in_doc_region {
        return false;
    }
    match element_behind_margin(cx, e) {
        Some(n) => {
            if cx.t.is_token(n) {
                return false;
            }
            if dtx_doc_region(cx, n) {
                return true;
            }
            if cx.t.kind(n) != SyntaxKind::Paragraph {
                return false;
            }
            match first_solid_of(cx, &cx.children(n)) {
                Some(c) => !cx.t.is_token(c) && dtx_doc_region(cx, c),
                None => false,
            }
        },
        None => false,
    }
}

/// Whether the paragraph may be laid out anew as far as its environments go: it is in none, and
/// each that it holds is a child and a region of documentation.
pub open spec fn paragraph_reflows(cx: LowerCtx, n: int) -> bool {
    env_around(cx.t, n) is None && !cx.t.node_is(n, SyntaxKind::Environment) && forall|i: int|
        0 <= i < cx.t.kids(n).len() ==> {
            let c = #[trigger] cx.t.kids(n)[i] as int;
            cx.t.tok(c) || if cx.t.k(c) == SyntaxKind::Environment {
                doc_region(cx, c)
            } else {
                !has_node(cx.t, c, SyntaxKind::Environment)
            }
        }
}

pub fn dtx_paragraph_reflows(cx: LowerCtx, n: usize) -> (r: bool)
    requires
        cx.ok(),
        n < cx.t.n(),
    ensures
        r == paragraph_reflows(cx, n as int),
{
    if enclosing_environment(cx, n).is_some() || cx.t.is_node(n, SyntaxKind::Environment) {
        return false;
    }
    let es = cx.children(n);
    let mut i: usize = 0;
    while i < es.len()
        invariant
            cx.ok(),
            es@ == cx.t.kids(n as int),
            in_tree(cx.t, es@),
            forall|j: int|
                0 <= j < i ==> {
                    let c = #[trigger] cx.t.kids(n as int)[j] as int;
                    cx.t.tok(c) || if cx.t.k(c) == SyntaxKind::Environment {
                        doc_region(cx, c)
                    } else {
                        !has_node(cx.t, c, SyntaxKind::Environment)
                    }
                },
        decreases es@.len() - i,
    {
        let c: usize = es[i];
        let fine = cx.t.is_token(c) || if cx.t.kind(c) == SyntaxKind::Environment {
            dtx_doc_region(cx, c)
        } else {
            !contains_node(cx, c, SyntaxKind::Environment)
        };
        if !fine {
            assert(cx.t.kids(n as int)[i as int] == c);
            return false;
        }
        i = i + 1;
    }
    true
}

/// Whether a margin or a guard is in the run.
pub open spec fn run_has_margin(cx: LowerCtx, es: Seq<usize>) -> bool {
    cx.is_dtx && exists|i: int| 0 <= i < es.len() && carries_margin(cx, #[trigger] es[i] as int)
}

/// Whether the element is a margin or a guard, or a node that holds one.
pub open spec fn carries_margin(cx: LowerCtx, e: int) -> bool {
    if cx.t.tok(e) {
        cx.t.k(e) == SyntaxKind::DocMargin || cx.t.k(e) == SyntaxKind::Guard
    } else {
        margin_inside(cx, e)
    }
}

pub fn run_carries_doc_margin(cx: LowerCtx, es: &Vec<usize>) -> (r: bool)
    requires
        cx.ok(),
        in_tree(cx.t, es@),
    ensures
        r == run_has_margin(cx, es@),
{
    if !cx.is_dtx {
        return false;
    }
    let mut i: usize = 0;
    while i < es.len()
        invariant
            cx.ok(),
            cx.is_dtx,
            in_tree(cx.t, es@),
            forall|j: int| 0 <= j < i && j < es@.len() ==> !carries_margin(cx, #[trigger] es@[j] as int),
        decreases es@.len() - i,
    {
        let e: usize = es[i];
        let carries = if cx.t.is_token(e) {
            cx.t.kind(e) == SyntaxKind::DocMargin || cx.t.kind(e) == SyntaxKind::Guard
        } else {
            contains_doc_margin(cx, e)
        };
        if carries {
            assert(carries_margin(cx, es@[i as int] as int));
            return true;
        }
        i = i + 1;
    }
    false
}

/// Whether the first token of a run that is not white space is a margin.
pub open spec fn run_margined(t: &Tree, es: Seq<usize>, i: int) -> bool
    decreases es.len() - i,
{
    if i < 0 || i >= es.len() {
        false
    } else {
        match first_content(t, es[i] as int, t.end(es[i] as int)) {
            Some(c) => t.k(c as int) == SyntaxKind::DocMargin,
            None => run_margined(t, es, i + 1),
        }
    }
}

pub fn dtx_run_starts_margined(cx: LowerCtx, es: &Vec<usize>) -> (r: bool)
    requires
        cx.ok(),
        in_tree(cx.t, es@),
    ensures
        r == run_margined(cx.t, es@, 0),
{
    let mut i: usize = 0;
    while i < es.len()
        invariant
            cx.ok(),
            in_tree(cx.t, es@),
            run_margined(cx.t, es@, i as int) == run_margined(cx.t, es@, 0),
        decreases es@.len() - i,
    {
        match first_content_in(cx, es[i]) {
            Some(c) => {
                return cx.t.kind(c) == SyntaxKind::DocMargin;
            },
            None => {},
        }
        i = i + 1;
    }
    false
}

/// Whether the command closes a stretch of expl3 code.
pub open spec fn is_syntax_off(t: &Tree, e: int) -> bool {
    t.node_is(e, SyntaxKind::Command) && match t.head(e) {
        Some(i) => t.k(i as int) == SyntaxKind::ControlWord && t.elems@[i as int].facts.toggle == Some(
            ExplToggle::Off,
        ),
        None => false,
    }
}

pub fn is_expl_syntax_off_command(cx: LowerCtx, e: usize) -> (r: bool)
    requires
        cx.ok(),
        e < cx.t.n(),
    ensures
        r == is_syntax_off(cx.t, e as int),
{
    proof {
        reveal(LowerCtx::ok);
        assert(cx.t.end(e as int) <= cx.t.n());
    }
    cx.t.is_node(e, SyntaxKind::Command) && match cx.t.first_token(e) {
        Some(i) => cx.t.kind(i) == SyntaxKind::ControlWord && match cx.t.elems[i].facts.toggle {
            Some(toggle) => toggle == ExplToggle::Off,
            None => false,
        },
        None => false,
    }
}

/// The margin of the line that an environment starts on, with the blanks behind it.
pub open spec fn line_lead(t: &Tree, n: int) -> Option<Layout> {
    match t.prev_sib(n) {
        Some(p) => if t.tok_is(p as int, SyntaxKind::DocMargin) {
            Some(Layout::ColumnZero(t.txt(p as int)))
        } else if t.tok_is(p as int, SyntaxKind::Whitespace) && !t.txt(p as int).contains('\n') {
            match t.prev_sib(p as int) {
                Some(q) => if t.tok_is(q as int, SyntaxKind::DocMargin) {
                    Some(concat2(Layout::ColumnZero(t.txt(q as int)), verbatim(t.txt(p as int))))
                } else {
                    None
                },
                None => None,
            }
        } else {
            None
        },
        None => None,
    }
}

pub fn dtx_env_line_lead(cx: LowerCtx, n: usize) -> (r: Option<Ir>)
    requires
        cx.ok(),
        n < cx.t.n(),
    ensures
        r is Some == line_lead(cx.t, n as int) is Some,
        r matches Some(ir) ==> line_lead(cx.t, n as int) == Some(ir@),
{
    proof {
        reveal(LowerCtx::ok);
    }
    match cx.t.prev_sibling(n) {
        Some(p) => {
            if cx.t.token_is(p, SyntaxKind::DocMargin) {
                return Some(Ir::column_zero(cx.t.text(p)));
            }
            if cx.t.token_is(p, SyntaxKind::Whitespace) && !contains_char(cx.t.text(p), '\n') {
                return match cx.t.prev_sibling(p) {
                    Some(q) => if cx.t.token_is(q, SyntaxKind::DocMargin) {
                        Some(Ir::concat2(Ir::column_zero(cx.t.text(q)), Ir::verbatim(cx.t.text(p))))
                    } else {
                        None
                    },
                    None => None,
                };
            }
            None
        },
        None => None,
    }
}

} // verus!

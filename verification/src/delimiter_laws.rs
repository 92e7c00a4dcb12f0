//! What stands at the delimiters of groups, arguments and statements, and how environments are told
//! apart.

use vstd::prelude::*;

use crate::alignment::{is_alignment, is_math, top_level_tab};
use crate::commands::{comment_block, comment_prefix, prose_group, statement, statement_comment};
use crate::context::{gap_at, tok_at, LowerCtx};
use crate::docs::framed;
use crate::flatten::{cell_elements, closer, framing_stripped, inner, opener};
use crate::gap::trimmable;
use crate::groups::{block_body, bracketed, token_layout};
use crate::ir::{concat, concat2, concat3, concat4, group, indent, verbatim, Layout};
use crate::lists::is_list;
use crate::lower::{env_layout, EnvLayout};
use crate::predicates::{margin_inside, verbatim_body};
use crate::prose::{reflowed, ReflowKind};
use crate::segments::{back_padding, front_padding};
use crate::syntax::SyntaxKind;

verus! {

// ---- environments --------------------------------------------------------------------------

/// A body that is reproduced byte by byte is never rearranged, and neither is one with a margin in
/// it, unless its lines are framed by margins or it is a list in wrapped text. Every other
/// environment is laid out as what it was declared: math as math, a table as a table, a list as a
/// list. One that is none of these is a table where it has cells, and plain where it has none.
pub proof fn environments_are_laid_out_as_declared(cx: LowerCtx, n: int)
    ensures
        verbatim_body(cx.t, n) ==> env_layout(cx, n) == EnvLayout::Stream,
        env_layout(cx, n) == EnvLayout::Framed <==> !verbatim_body(cx.t, n) && !cx.in_doc_region && framed(cx.t, n)
            && !is_math(cx, n),
        env_layout(cx, n) == EnvLayout::Math <==> !verbatim_body(cx.t, n) && !cx.in_doc_region && is_math(cx, n)
            && !margin_inside(cx, n),
        margin_inside(cx, n) ==> env_layout(cx, n) != EnvLayout::Table && env_layout(cx, n) != EnvLayout::Plain,
        margin_inside(cx, n) && env_layout(cx, n) == EnvLayout::List ==> is_list(cx, n) && cx.wrapping(),
        env_layout(cx, n) == EnvLayout::List ==> is_list(cx, n),
        env_layout(cx, n) == EnvLayout::Table ==> is_alignment(cx, n) || top_level_tab(cx.t, n),
        env_layout(cx, n) == EnvLayout::Stream ==> verbatim_body(cx.t, n) || margin_inside(cx, n),
        env_layout(cx, n) == EnvLayout::Plain ==> !is_alignment(cx, n) && !is_list(cx, n) && !top_level_tab(cx.t, n),
        !verbatim_body(cx.t, n) && !margin_inside(cx, n) && is_alignment(cx, n) && !is_math(cx, n) && !framed(cx.t, n)
            ==> env_layout(cx, n) == EnvLayout::Table,
        !verbatim_body(cx.t, n) && !margin_inside(cx, n) && is_list(cx, n) && !is_alignment(cx, n) && !is_math(cx, n)
            && !framed(cx.t, n) ==> env_layout(cx, n) == EnvLayout::List,
{
    reveal(env_layout);
}

// ---- padding -------------------------------------------------------------------------------

/// The padding at the front of a body is all of it, up to the first piece that is none, and it
/// counts as the first of its pieces.
pub proof fn padding_at_the_front_is_taken_whole(parts: Seq<Layout>)
    ensures
        ({
            let (padding, rest) = front_padding(parts, Layout::Nil);
            let n = parts.len() - rest.len();
            &&& 0 <= n <= parts.len()
            &&& rest == parts.skip(n)
            &&& forall|k: int| 0 <= k < n ==> trimmable(#[trigger] parts[k])
            &&& rest.len() > 0 ==> !trimmable(rest[0])
            &&& n == 0 ==> padding is Nil
            &&& n > 0 && !(parts[0] is Nil) ==> padding == parts[0]
        }),
{
    lemma_front_padding(parts, Layout::Nil);
}

proof fn lemma_front_padding(parts: Seq<Layout>, before: Layout)
    ensures
        ({
            let (padding, rest) = front_padding(parts, before);
            let n = parts.len() - rest.len();
            &&& 0 <= n <= parts.len()
            &&& rest == parts.skip(n)
            &&& forall|k: int| 0 <= k < n ==> trimmable(#[trigger] parts[k])
            &&& rest.len() > 0 ==> !trimmable(rest[0])
            &&& !(before is Nil) ==> padding == before
            &&& n == 0 ==> padding == before
            &&& n > 0 && before is Nil && !(parts[0] is Nil) ==> padding == parts[0]
        }),
    decreases parts.len(),
{
    if parts.len() > 0 && trimmable(parts[0]) {
        let tail = parts.subrange(1, parts.len() as int);
        let next = if before is Nil {
            parts[0]
        } else {
            before
        };
        lemma_front_padding(tail, next);
        let (padding, rest) = front_padding(tail, next);
        let n = tail.len() - rest.len();
        assert(tail.skip(n) =~= parts.skip(n + 1));
        assert forall|k: int| 0 <= k < n + 1 implies trimmable(#[trigger] parts[k]) by {
            if k > 0 {
                assert(parts[k] == tail[k - 1]);
            }
        }
    } else {
        assert(parts.skip(0) =~= parts);
    }
}

/// The padding at the back of a body is all of it, down to the last piece that is none, and it
/// counts as the last of its pieces.
pub proof fn padding_at_the_back_is_taken_whole(parts: Seq<Layout>)
    ensures
        ({
            let (padding, rest) = back_padding(parts, Layout::Nil);
            &&& rest.len() <= parts.len()
            &&& rest == parts.take(rest.len() as int)
            &&& forall|k: int| rest.len() <= k < parts.len() ==> trimmable(#[trigger] parts[k])
            &&& rest.len() > 0 ==> !trimmable(rest.last())
            &&& rest.len() == parts.len() ==> padding is Nil
            &&& rest.len() < parts.len() && !(parts.last() is Nil) ==> padding == parts.last()
        }),
{
    lemma_back_padding(parts, Layout::Nil);
}

proof fn lemma_back_padding(parts: Seq<Layout>, behind: Layout)
    ensures
        ({
            let (padding, rest) = back_padding(parts, behind);
            &&& rest.len() <= parts.len()
            &&& rest == parts.take(rest.len() as int)
            &&& forall|k: int| rest.len() <= k < parts.len() ==> trimmable(#[trigger] parts[k])
            &&& rest.len() > 0 ==> !trimmable(rest.last())
            &&& !(behind is Nil) ==> padding == behind
            &&& rest.len() == parts.len() ==> padding == behind
            &&& rest.len() < parts.len() && behind is Nil && !(parts.last() is Nil) ==> padding == parts.last()
        }),
    decreases parts.len(),
{
    if parts.len() > 0 && trimmable(parts.last()) {
        let front = parts.drop_last();
        let next = if behind is Nil {
            parts.last()
        } else {
            behind
        };
        lemma_back_padding(front, next);
        let rest = back_padding(front, next).1;
        assert(front.take(rest.len() as int) =~= parts.take(rest.len() as int));
        assert forall|k: int| rest.len() <= k < parts.len() implies trimmable(#[trigger] parts[k]) by {
            if k < front.len() {
                assert(parts[k] == front[k]);
            }
        }
    } else {
        assert(parts.take(parts.len() as int) =~= parts);
    }
}

// ---- groups --------------------------------------------------------------------------------

/// A body between its delimiters, one step deeper, with what parts it from each of them.
pub open spec fn between(open: Layout, front: Layout, body: Layout, back: Layout, close: Layout) -> Layout {
    concat4(open, indent(concat2(front, body)), back, close)
}

/// What parts a body from a delimiter: a line break where the source has white space there, and
/// nothing where they touch.
pub open spec fn as_in_source(gap: bool) -> Layout {
    if gap {
        Layout::HardLine
    } else {
        Layout::Nil
    }
}

/// A group whose body is on lines of its own ends its line behind the opening delimiter exactly where
/// white space stands there, and before the closing one exactly where white space stands there:
/// content that touches a delimiter goes on touching it.
pub proof fn a_group_touches_its_delimiters_where_it_did(
    cx: LowerCtx,
    n: int,
    open: SyntaxKind,
    close: SyntaxKind,
    fuel: nat,
)
    requires
        fuel > 0,
        open != SyntaxKind::LBracket,
        ({
            let es = framing_stripped(cx, cx.t.kids(n));
            let all = inner(cx.t, es, open, close, es.len() as int);
            all.len() > 0 && !tok_at(cx.t, all, 0, SyntaxKind::Comment)
        }),
    ensures
        ({
            let t = cx.t;
            let es = framing_stripped(cx, t.kids(n));
            let all = inner(t, es, open, close, es.len() as int);
            let o = token_layout(t, opener(t, es, open, 0));
            let c = token_layout(t, closer(t, es, open, close, es.len() as int));
            let l = bracketed(cx, n, open, close, false, fuel);
            l == concat2(o, c) || exists|body: Layout|
                l == #[trigger] between(
                    o,
                    as_in_source(gap_at(t, all, 0)),
                    body,
                    as_in_source(gap_at(t, all, all.len() - 1)),
                    c,
                )
        }),
{
    let t = cx.t;
    let es = framing_stripped(cx, t.kids(n));
    let all = inner(t, es, open, close, es.len() as int);
    let o = token_layout(t, opener(t, es, open, 0));
    let c = token_layout(t, closer(t, es, open, close, es.len() as int));
    let body = block_body(cx, all, open, (fuel - 1) as nat);
    let l = bracketed(cx, n, open, close, false, fuel);
    if !(body is Nil) {
        assert(l == between(o, as_in_source(gap_at(t, all, 0)), body, as_in_source(gap_at(t, all, all.len() - 1)), c));
    }
}

/// A group of keys and values whose body is on lines of its own has both delimiters on other lines
/// than the body.
pub proof fn keys_and_values_stand_apart_from_their_delimiters(
    cx: LowerCtx,
    n: int,
    open: SyntaxKind,
    close: SyntaxKind,
    fuel: nat,
)
    requires
        fuel > 0,
        open != SyntaxKind::LBracket,
        ({
            let es = framing_stripped(cx, cx.t.kids(n));
            let all = inner(cx.t, es, open, close, es.len() as int);
            !tok_at(cx.t, all, 0, SyntaxKind::Comment)
        }),
    ensures
        ({
            let t = cx.t;
            let es = framing_stripped(cx, t.kids(n));
            let o = token_layout(t, opener(t, es, open, 0));
            let c = token_layout(t, closer(t, es, open, close, es.len() as int));
            let l = bracketed(cx, n, open, close, true, fuel);
            l == concat2(o, c) || exists|body: Layout|
                l == #[trigger] between(o, Layout::HardLine, body, Layout::HardLine, c)
        }),
{
    let t = cx.t;
    let es = framing_stripped(cx, t.kids(n));
    let all = inner(t, es, open, close, es.len() as int);
    let o = token_layout(t, opener(t, es, open, 0));
    let c = token_layout(t, closer(t, es, open, close, es.len() as int));
    let body = block_body(cx, all, open, (fuel - 1) as nat);
    let l = bracketed(cx, n, open, close, true, fuel);
    if !(body is Nil) {
        assert(l == between(o, Layout::HardLine, body, Layout::HardLine, c));
    }
}

// ---- arguments -----------------------------------------------------------------------------

/// A comment directly behind the opening delimiter of an argument stays there and ends its line, and
/// the closing delimiter is on a line of its own.
pub proof fn a_comment_behind_a_delimiter_stays_there(
    cx: LowerCtx,
    n: int,
    open: SyntaxKind,
    close: SyntaxKind,
    fuel: nat,
)
    requires
        fuel > 0,
        ({
            let es = cell_elements(cx, cx.t.kids(n));
            tok_at(cx.t, inner(cx.t, es, open, close, es.len() as int), 0, SyntaxKind::Comment)
        }),
    ensures
        ({
            let t = cx.t;
            let es = cell_elements(cx, t.kids(n));
            let all = inner(t, es, open, close, es.len() as int);
            let o = concat2(token_layout(t, opener(t, es, open, 0)), verbatim(t.txt(all[0] as int)));
            let c = token_layout(t, closer(t, es, open, close, es.len() as int));
            let l = prose_group(cx, n, open, close, fuel);
            l == concat3(o, Layout::HardLine, c) || exists|body: Layout|
                l == group(#[trigger] between(o, Layout::HardLine, body, Layout::HardLine, c))
        }),
{
    let t = cx.t;
    let es = cell_elements(cx, t.kids(n));
    let all = inner(t, es, open, close, es.len() as int);
    let o = concat2(token_layout(t, opener(t, es, open, 0)), verbatim(t.txt(all[0] as int)));
    let c = token_layout(t, closer(t, es, open, close, es.len() as int));
    let body = reflowed(cx, all.subrange(1, all.len() as int), ReflowKind::ProseArg, (fuel - 1) as nat).0;
    let l = prose_group(cx, n, open, close, fuel);
    if !(body is Nil) {
        assert(l == group(between(o, Layout::HardLine, body, Layout::HardLine, c)));
    }
}

// ---- statements ----------------------------------------------------------------------------

/// The elements `[0, n)` of a statement are commands, their comments and white space, and the last
/// of them is a comment.
pub open spec fn commented_commands(cx: LowerCtx, es: Seq<usize>, n: int) -> bool {
    &&& 0 < n <= es.len()
    &&& cx.t.tok_is(es[n - 1] as int, SyntaxKind::Comment)
    &&& forall|k: int|
        0 <= k < n ==> {
            let e = #[trigger] es[k] as int;
            ||| cx.t.tok_is(e, SyntaxKind::Whitespace)
            ||| cx.t.tok_is(e, SyntaxKind::Newline)
            ||| cx.t.tok_is(e, SyntaxKind::Comment)
            ||| cx.t.node_is(e, SyntaxKind::Command)
        }
}

proof fn lemma_comment_prefix(cx: LowerCtx, es: Seq<usize>, i: int, saw: bool, end: int)
    requires
        0 <= end <= i <= es.len(),
        end > 0 ==> commented_commands(cx, es, end),
        forall|k: int|
            0 <= k < i ==> {
                let e = #[trigger] es[k] as int;
                ||| cx.t.tok_is(e, SyntaxKind::Whitespace)
                ||| cx.t.tok_is(e, SyntaxKind::Newline)
                ||| cx.t.tok_is(e, SyntaxKind::Comment)
                ||| cx.t.node_is(e, SyntaxKind::Command)
            },
    ensures
        ({
            let n = comment_prefix(cx, es, i, saw, end);
            n == 0 || commented_commands(cx, es, n)
        }),
    decreases es.len() - i,
{
    if i < es.len() {
        let e = es[i] as int;
        if cx.t.tok_is(e, SyntaxKind::Whitespace) {
            lemma_comment_prefix(cx, es, i + 1, saw, end);
        } else if cx.t.tok_is(e, SyntaxKind::Newline) {
            if !saw {
                lemma_comment_prefix(cx, es, i + 1, saw, end);
            }
        } else if cx.t.node_is(e, SyntaxKind::Command) {
            lemma_comment_prefix(cx, es, i + 1, true, end);
        } else if cx.t.tok_is(e, SyntaxKind::Comment) {
            lemma_comment_prefix(cx, es, i + 1, false, i + 1);
        }
    }
}

/// What is put before a statement on lines of its own are commands that end in comments, and nothing
/// else.
pub proof fn only_commented_commands_stand_before_a_statement(cx: LowerCtx, es: Seq<usize>)
    ensures
        ({
            let n = comment_prefix(cx, es, 0, false, 0);
            n == 0 || commented_commands(cx, es, n)
        }),
{
    lemma_comment_prefix(cx, es, 0, false, 0);
}

/// A statement is one step deeper than its surroundings, and where it has a comment of its own or
/// commented commands before it, these end their line.
pub proof fn a_statement_is_indented_behind_its_comments(cx: LowerCtx, n: int, fuel: nat)
    requires
        fuel > 0,
    ensures
        ({
            let l = statement(cx, n, fuel);
            let comment = statement_comment(cx, n);
            let cut = comment_prefix(cx.omitting(comment), cx.t.kids(n), 0, false, 0);
            if comment is None && cut == 0 {
                exists|body: Layout| l == #[trigger] indent(body)
            } else {
                exists|lead: Layout, body: Layout| l == #[trigger] behind_a_break(lead, body)
            }
        }),
{
    let less = (fuel - 1) as nat;
    let comment = statement_comment(cx, n);
    let inside = cx.omitting(comment);
    let es = cx.t.kids(n);
    let cut = comment_prefix(inside, es, 0, false, 0);
    let kind = ReflowKind::StatementInterior;
    let l = statement(cx, n, fuel);
    if comment is None && cut == 0 {
        assert(l == indent(reflowed(cx, es, kind, less).0));
    } else {
        let before = comment_block(cx.t, comment);
        let lead = if cut > 0 {
            (if before.len() > 0 {
                before.push(Layout::HardLine)
            } else {
                before
            }).push(reflowed(inside, es.subrange(0, cut), kind, less).0)
        } else {
            before
        };
        assert(l == behind_a_break(
            concat(lead),
            reflowed(inside, es.subrange(cut, es.len() as int), kind, less).0,
        ));
    }
}

/// A body one step deeper, on the line behind what leads to it.
pub open spec fn behind_a_break(lead: Layout, body: Layout) -> Layout {
    concat3(lead, Layout::HardLine, indent(body))
}

} // verus!

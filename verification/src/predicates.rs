//! Questions about the elements of a tree.

use vstd::prelude::*;

use crate::context::{gap_at, in_tree, tok_at, LowerCtx};
use crate::ir::{has_newline};
use crate::signatures::{ArgumentDomain, CitationPlacement, CommandSig, ContentKind};
use crate::syntax::{collapsible, SyntaxKind, Tree};
use crate::text::{contains_char, ends_with, has_tail};

verus! {

// ---- what a node holds ---------------------------------------------------------------------

/// Whether a token of that kind stands in the subtree.
pub open spec fn has_tok(t: &Tree, n: int, kind: SyntaxKind) -> bool {
    exists|i: int| n <= i < t.end(n) && #[trigger] t.tok_is(i, kind)
}

pub fn contains_token(cx: LowerCtx, n: usize, kind: SyntaxKind) -> (r: bool)
    requires
        cx.ok(),
        n < cx.t.n(),
    ensures
        r == has_tok(cx.t, n as int, kind),
{
    proof {
        reveal(LowerCtx::ok);
        assert(cx.t.end(n as int) <= cx.t.n());
    }
    let hi: usize = cx.t.subtree_end(n);
    let mut i: usize = n;
    while i < hi
        invariant
            hi == cx.t.end(n as int),
            hi <= cx.t.n(),
            n <= i,
            forall|j: int| n <= j < i ==> !#[trigger] cx.t.tok_is(j, kind),
        decreases hi - i,
    {
        if cx.t.token_is(i, kind) {
            return true;
        }
        i = i + 1;
    }
    false
}

/// Whether a node of that kind is the root of the subtree or stands in it.
pub open spec fn has_node(t: &Tree, n: int, kind: SyntaxKind) -> bool {
    exists|i: int| n <= i < t.end(n) && #[trigger] t.node_is(i, kind)
}

pub fn contains_node(cx: LowerCtx, n: usize, kind: SyntaxKind) -> (r: bool)
    requires
        cx.ok(),
        n < cx.t.n(),
    ensures
        r == has_node(cx.t, n as int, kind),
{
    proof {
        reveal(LowerCtx::ok);
        assert(cx.t.end(n as int) <= cx.t.n());
    }
    let hi: usize = cx.t.subtree_end(n);
    let mut i: usize = n;
    while i < hi
        invariant
            hi == cx.t.end(n as int),
            hi <= cx.t.n(),
            n <= i,
            forall|j: int| n <= j < i ==> !#[trigger] cx.t.node_is(j, kind),
        decreases hi - i,
    {
        if cx.t.is_node(i, kind) {
            return true;
        }
        i = i + 1;
    }
    false
}

/// Whether an element of a list is a token of that kind.
pub open spec fn any_tok(t: &Tree, es: Seq<usize>, kind: SyntaxKind) -> bool {
    exists|i: int| 0 <= i < es.len() && t.tok_is(#[trigger] es[i] as int, kind)
}

pub fn any_token(cx: LowerCtx, es: &Vec<usize>, kind: SyntaxKind) -> (r: bool)
    requires
        in_tree(cx.t, es@),
    ensures
        r == any_tok(cx.t, es@, kind),
{
    let mut i: usize = 0;
    while i < es.len()
        invariant
            in_tree(cx.t, es@),
            i <= es@.len(),
            forall|j: int| 0 <= j < i ==> !cx.t.tok_is(#[trigger] es@[j] as int, kind),
        decreases es@.len() - i,
    {
        if cx.t.token_is(es[i], kind) {
            return true;
        }
        i = i + 1;
    }
    false
}

/// Whether an element of a list is a node of that kind.
pub open spec fn any_node(t: &Tree, es: Seq<usize>, kind: SyntaxKind) -> bool {
    exists|i: int| 0 <= i < es.len() && t.node_is(#[trigger] es[i] as int, kind)
}

pub fn any_node_of(cx: LowerCtx, es: &Vec<usize>, kind: SyntaxKind) -> (r: bool)
    requires
        in_tree(cx.t, es@),
    ensures
        r == any_node(cx.t, es@, kind),
{
    let mut i: usize = 0;
    while i < es.len()
        invariant
            in_tree(cx.t, es@),
            i <= es@.len(),
            forall|j: int| 0 <= j < i ==> !cx.t.node_is(#[trigger] es@[j] as int, kind),
        decreases es@.len() - i,
    {
        if cx.t.is_node(es[i], kind) {
            return true;
        }
        i = i + 1;
    }
    false
}

/// Whether all the elements of a list are collapsible white space.
pub open spec fn all_gaps(t: &Tree, es: Seq<usize>) -> bool {
    forall|i: int| 0 <= i < es.len() ==> t.gap(#[trigger] es[i] as int)
}

pub fn is_all_gaps(cx: LowerCtx, es: &Vec<usize>) -> (r: bool)
    requires
        in_tree(cx.t, es@),
    ensures
        r == all_gaps(cx.t, es@),
{
    let mut i: usize = 0;
    while i < es.len()
        invariant
            in_tree(cx.t, es@),
            i <= es@.len(),
            forall|j: int| 0 <= j < i ==> cx.t.gap(#[trigger] es@[j] as int),
        decreases es@.len() - i,
    {
        if !cx.t.is_gap(es[i]) {
            return false;
        }
        i = i + 1;
    }
    true
}

/// Whether a line break is a child of the node.
pub open spec fn multi_line(t: &Tree, n: int) -> bool {
    any_tok(t, t.kids(n), SyntaxKind::Newline)
}

pub fn spans_multiple_lines(cx: LowerCtx, n: usize) -> (r: bool)
    requires
        cx.ok(),
        n < cx.t.n(),
    ensures
        r == multi_line(cx.t, n as int),
{
    any_token(cx, &cx.children(n), SyntaxKind::Newline)
}

/// Whether the body of the node is reproduced byte by byte.
pub open spec fn verbatim_body(t: &Tree, n: int) -> bool {
    any_tok(t, t.kids(n), SyntaxKind::VerbatimBody)
}

pub fn has_verbatim_body(cx: LowerCtx, n: usize) -> (r: bool)
    requires
        cx.ok(),
        n < cx.t.n(),
    ensures
        r == verbatim_body(cx.t, n as int),
{
    any_token(cx, &cx.children(n), SyntaxKind::VerbatimBody)
}

/// Whether a margin or a guard, which stand in the first column, is in the node.
pub open spec fn margin_inside(cx: LowerCtx, n: int) -> bool {
    cx.is_dtx && !cx.in_doc_region && (has_tok(cx.t, n, SyntaxKind::DocMargin) || has_tok(cx.t, n, SyntaxKind::Guard))
}

pub fn contains_doc_margin(cx: LowerCtx, n: usize) -> (r: bool)
    requires
        cx.ok(),
        n < cx.t.n(),
    ensures
        r == margin_inside(cx, n as int),
{
    cx.is_dtx && !cx.in_doc_region && (contains_token(cx, n, SyntaxKind::DocMargin) || contains_token(
        cx,
        n,
        SyntaxKind::Guard,
    ))
}

/// Whether the token `i` of the node ends a line whose next line has its margin.
pub open spec fn break_before_margin(t: &Tree, n: int, i: int) -> bool {
    t.k(i) == SyntaxKind::Newline && match t.next_tok(i) {
        Some(j) => j < t.end(n) && (t.k(j as int) == SyntaxKind::DocMargin || t.k(j as int) == SyntaxKind::Guard),
        None => false,
    }
}

/// Whether the token spans lines.
pub open spec fn tok_breaks(t: &Tree, i: int) -> bool {
    t.tok(i) && has_newline(t.txt(i))
}

/// Whether the node spans lines, and each of its lines but the first has a margin of its own.
pub open spec fn rides_own_margins(t: &Tree, n: int) -> bool {
    (exists|i: int| n <= i < t.end(n) && #[trigger] tok_breaks(t, i)) && forall|i: int|
        n <= i < t.end(n) && #[trigger] tok_breaks(t, i) ==> break_before_margin(t, n, i)
}

pub fn block_rides_own_margins(cx: LowerCtx, n: usize) -> (r: bool)
    requires
        cx.ok(),
        n < cx.t.n(),
    ensures
        r == rides_own_margins(cx.t, n as int),
{
    proof {
        reveal(LowerCtx::ok);
        assert(cx.t.end(n as int) <= cx.t.n());
    }
    let hi: usize = cx.t.subtree_end(n);
    let mut saw = false;
    let mut i: usize = n;
    while i < hi
        invariant
            cx.t.wf(),
            hi == cx.t.end(n as int),
            n < cx.t.n(),
            hi <= cx.t.n(),
            n <= i <= hi,
            saw == exists|j: int| n <= j < i && #[trigger] tok_breaks(cx.t, j),
            forall|j: int| n <= j < i && #[trigger] tok_breaks(cx.t, j) ==> break_before_margin(cx.t, n as int, j),
        decreases hi - i,
    {
        if cx.t.is_token(i) && contains_char(cx.t.text(i), '\n') {
            assert(tok_breaks(cx.t, i as int));
            let fine = cx.t.kind(i) == SyntaxKind::Newline && match cx.t.next_token(i) {
                Some(j) => j < hi && (cx.t.kind(j) == SyntaxKind::DocMargin || cx.t.kind(j) == SyntaxKind::Guard),
                None => false,
            };
            if !fine {
                return false;
            }
            saw = true;
        }
        i = i + 1;
    }
    saw
}

// ---- what stands before an element ---------------------------------------------------------

/// Whether only blanks stand between the place before `i` and the margin of its line.
pub open spec fn margin_before(t: &Tree, i: int) -> bool
    decreases i,
{
    if i <= 0 {
        false
    } else if !t.tok(i - 1) || t.k(i - 1) == SyntaxKind::Whitespace {
        margin_before(t, i - 1)
    } else {
        t.k(i - 1) == SyntaxKind::DocMargin
    }
}

/// The margin may also be a guard.
pub open spec fn frame_before(t: &Tree, i: int) -> bool
    decreases i,
{
    if i <= 0 {
        false
    } else if !t.tok(i - 1) || t.k(i - 1) == SyntaxKind::Whitespace {
        frame_before(t, i - 1)
    } else {
        t.k(i - 1) == SyntaxKind::DocMargin || t.k(i - 1) == SyntaxKind::Guard
    }
}

/// Whether a margin or a guard stands before `i` on its line.
pub open spec fn line_opens_with_margin(t: &Tree, i: int) -> bool
    decreases i,
{
    if i <= 0 {
        false
    } else if t.tok_is(i - 1, SyntaxKind::Newline) {
        false
    } else if t.tok_is(i - 1, SyntaxKind::DocMargin) || t.tok_is(i - 1, SyntaxKind::Guard) {
        true
    } else {
        line_opens_with_margin(t, i - 1)
    }
}

pub fn margin_precedes_on_line(cx: LowerCtx, i: usize) -> (r: bool)
    requires
        i <= cx.t.n(),
    ensures
        r == margin_before(cx.t, i as int),
{
    let mut j: usize = i;
    while j > 0 && (!cx.t.is_token(j - 1) || cx.t.kind(j - 1) == SyntaxKind::Whitespace)
        invariant
            j <= cx.t.n(),
            margin_before(cx.t, j as int) == margin_before(cx.t, i as int),
        decreases j,
    {
        j = j - 1;
    }
    j > 0 && cx.t.kind(j - 1) == SyntaxKind::DocMargin
}

pub fn frame_precedes_on_line(cx: LowerCtx, i: usize) -> (r: bool)
    requires
        i <= cx.t.n(),
    ensures
        r == frame_before(cx.t, i as int),
{
    let mut j: usize = i;
    while j > 0 && (!cx.t.is_token(j - 1) || cx.t.kind(j - 1) == SyntaxKind::Whitespace)
        invariant
            j <= cx.t.n(),
            frame_before(cx.t, j as int) == frame_before(cx.t, i as int),
        decreases j,
    {
        j = j - 1;
    }
    j > 0 && (cx.t.kind(j - 1) == SyntaxKind::DocMargin || cx.t.kind(j - 1) == SyntaxKind::Guard)
}

/// Whether a margin or a guard stands before the node on its line.
pub open spec fn opens_line(cx: LowerCtx, n: int) -> bool {
    cx.is_dtx && !cx.in_doc_region && match cx.t.head(n) {
        Some(i) => line_opens_with_margin(cx.t, i as int),
        None => false,
    }
}

pub fn doc_margin_opens_line(cx: LowerCtx, n: usize) -> (r: bool)
    requires
        cx.ok(),
        n < cx.t.n(),
    ensures
        r == opens_line(cx, n as int),
{
    if !cx.is_dtx || cx.in_doc_region {
        return false;
    }
    proof {
        reveal(LowerCtx::ok);
    }
    match cx.t.first_token(n) {
        None => false,
        Some(i) => {
            let mut j: usize = i;
            while j > 0
                invariant
                    j <= cx.t.n(),
                    cx.is_dtx && !cx.in_doc_region,
                    cx.t.head(n as int) == Some(i),
                    line_opens_with_margin(cx.t, j as int) == line_opens_with_margin(cx.t, i as int),
                decreases j,
            {
                if cx.t.token_is(j - 1, SyntaxKind::Newline) {
                    return false;
                }
                if cx.t.token_is(j - 1, SyntaxKind::DocMargin) || cx.t.token_is(j - 1, SyntaxKind::Guard) {
                    return true;
                }
                j = j - 1;
            }
            false
        },
    }
}

/// Whether the comment stands alone on a line that is indented.
pub open spec fn indented_comment(t: &Tree, i: int) -> bool {
    t.tok_is(i, SyntaxKind::Comment) && match t.prev_tok(i) {
        Some(w) => t.k(w as int) == SyntaxKind::Whitespace && match t.prev_tok(w as int) {
            Some(b) => t.k(b as int) == SyntaxKind::Newline,
            None => false,
        },
        None => false,
    }
}

pub fn is_indented_dtx_comment(cx: LowerCtx, i: usize) -> (r: bool)
    requires
        cx.ok(),
        i < cx.t.n(),
    ensures
        r == indented_comment(cx.t, i as int),
{
    proof {
        reveal(LowerCtx::ok);
    }
    cx.t.token_is(i, SyntaxKind::Comment) && match cx.t.prev_token(i) {
        Some(w) => cx.t.kind(w) == SyntaxKind::Whitespace && match cx.t.prev_token(w) {
            Some(b) => cx.t.kind(b) == SyntaxKind::Newline,
            None => false,
        },
        None => false,
    }
}

/// Whether such a comment is in the node.
pub open spec fn has_indented_comment(t: &Tree, n: int) -> bool {
    exists|i: int| n <= i < t.end(n) && #[trigger] indented_comment(t, i)
}

pub fn contains_indented_dtx_comment(cx: LowerCtx, n: usize) -> (r: bool)
    requires
        cx.ok(),
        n < cx.t.n(),
    ensures
        r == has_indented_comment(cx.t, n as int),
{
    let hi: usize = cx.t.subtree_end(n);
    proof {
        reveal(LowerCtx::ok);
        assert(cx.t.end(n as int) <= cx.t.n());
    }
    let mut i: usize = n;
    while i < hi
        invariant
            cx.ok(),
            hi == cx.t.end(n as int),
            hi <= cx.t.n(),
            n <= i,
            forall|j: int| n <= j < i ==> !#[trigger] indented_comment(cx.t, j),
        decreases hi - i,
    {
        if is_indented_dtx_comment(cx, i) {
            return true;
        }
        i = i + 1;
    }
    false
}

/// The indentation of the comment that the node starts with.
pub open spec fn comment_padding(t: &Tree, n: int) -> Option<Seq<char>> {
    match t.head(n) {
        Some(i) => if indented_comment(t, i as int) {
            match t.prev_tok(i as int) {
                Some(w) => Some(t.txt(w as int)),
                None => None,
            }
        } else {
            None
        },
        None => None,
    }
}

pub fn leading_indented_dtx_comment_padding<'a>(cx: LowerCtx<'a>, n: usize) -> (r: Option<&'a str>)
    requires
        cx.ok(),
        n < cx.t.n(),
    ensures
        r is Some == comment_padding(cx.t, n as int) is Some,
        r matches Some(s) ==> Some(s@) == comment_padding(cx.t, n as int),
{
    proof {
        reveal(LowerCtx::ok);
    }
    match cx.t.first_token(n) {
        Some(i) => {
            if !is_indented_dtx_comment(cx, i) {
                return None;
            }
            match cx.t.prev_token(i) {
                Some(w) => Some(cx.t.text(w)),
                None => None,
            }
        },
        None => None,
    }
}

// ---- ancestors -----------------------------------------------------------------------------

/// Whether an environment of documented code encloses the node, or is it.
pub open spec fn is_macrocode(t: &Tree, n: int) -> bool {
    t.node_is(n, SyntaxKind::Environment) && (t.named(n, "macrocode"@) || t.named(n, "macrocode*"@))
}

pub fn is_macrocode_env(cx: LowerCtx, n: usize) -> (r: bool)
    requires
        n < cx.t.n(),
    ensures
        r == is_macrocode(cx.t, n as int),
{
    cx.t.is_node(n, SyntaxKind::Environment) && (cx.t.is_named(n, "macrocode") || cx.t.is_named(n, "macrocode*"))
}

pub open spec fn in_macrocode(t: &Tree, n: int) -> bool
    decreases n,
{
    is_macrocode(t, n) || (0 <= t.up(n) < n && in_macrocode(t, t.up(n)))
}

pub fn inside_macrocode(cx: LowerCtx, n: usize) -> (r: bool)
    requires
        cx.ok(),
        n < cx.t.n(),
    ensures
        r == in_macrocode(cx.t, n as int),
{
    let mut i: usize = n;
    loop
        invariant
            cx.ok(),
            i < cx.t.n(),
            in_macrocode(cx.t, i as int) == in_macrocode(cx.t, n as int),
        decreases i,
    {
        if is_macrocode_env(cx, i) {
            return true;
        }
        let p: usize = cx.t.parent(i);
        if p >= i {
            return false;
        }
        i = p;
    }
}

/// The nearest environment around the node.
pub open spec fn env_around(t: &Tree, n: int) -> Option<int>
    decreases n,
{
    if 0 <= t.up(n) < n {
        if t.node_is(t.up(n), SyntaxKind::Environment) {
            Some(t.up(n))
        } else {
            env_around(t, t.up(n))
        }
    } else {
        None
    }
}

/// Whether the body that the node stands in is statements.
pub open spec fn in_statements(cx: LowerCtx, n: int) -> bool {
    match env_around(cx.t, n) {
        Some(e) => match cx.env(e) {
            Some(sig) => sig.statement_body,
            None => false,
        },
        None => false,
    }
}

pub fn enclosing_environment(cx: LowerCtx, n: usize) -> (r: Option<usize>)
    requires
        cx.ok(),
        n < cx.t.n(),
    ensures
        r is Some == env_around(cx.t, n as int) is Some,
        r matches Some(e) ==> env_around(cx.t, n as int) == Some(e as int) && e < cx.t.n(),
{
    let mut i: usize = n;
    loop
        invariant
            cx.ok(),
            i < cx.t.n(),
            env_around(cx.t, i as int) == env_around(cx.t, n as int),
        decreases i,
    {
        let p: usize = cx.t.parent(i);
        if p >= i {
            return None;
        }
        if cx.t.is_node(p, SyntaxKind::Environment) {
            return Some(p);
        }
        i = p;
    }
}

pub fn in_statement_body_env(cx: LowerCtx, n: usize) -> (r: bool)
    requires
        cx.ok(),
        n < cx.t.n(),
    ensures
        r == in_statements(cx, n as int),
{
    match enclosing_environment(cx, n) {
        Some(e) => match cx.env_sig(e) {
            Some(sig) => sig.statement_body,
            None => false,
        },
        None => false,
    }
}

// ---- commands ------------------------------------------------------------------------------

pub open spec fn has_managed_arg(sig: Option<CommandSig>) -> bool {
    match sig {
        Some(sig) => exists|i: int| 0 <= i < sig.args@.len() && (#[trigger] sig.args@[i]).content != ContentKind::Opaque,
        None => false,
    }
}

pub open spec fn has_math_arg(sig: Option<CommandSig>) -> bool {
    match sig {
        Some(sig) => exists|i: int| 0 <= i < sig.args@.len() && (#[trigger] sig.args@[i]).domain == ArgumentDomain::Math,
        None => false,
    }
}

pub open spec fn has_arg_of(sig: CommandSig, content: ContentKind) -> bool {
    exists|i: int| 0 <= i < sig.args@.len() && (#[trigger] sig.args@[i]).content == content
}

/// Whether some argument of the command is laid out by its content.
pub fn command_has_managed_arg(cx: LowerCtx, n: usize) -> (r: bool)
    requires
        n < cx.t.n(),
    ensures
        r == has_managed_arg(cx.sig(n as int)),
{
    match cx.command_sig(n) {
        Some(sig) => {
            let mut i: usize = 0;
            while i < sig.args.len()
                invariant
                    i <= sig.args@.len(),
                    cx.sig(n as int) == Some(*sig),
                    forall|j: int| 0 <= j < i ==> (#[trigger] sig.args@[j]).content == ContentKind::Opaque,
                decreases sig.args@.len() - i,
            {
                if sig.args[i].content != ContentKind::Opaque {
                    return true;
                }
                i = i + 1;
            }
            false
        },
        None => false,
    }
}

/// Whether some argument of the command is math.
pub fn command_has_math_arg(cx: LowerCtx, n: usize) -> (r: bool)
    requires
        n < cx.t.n(),
    ensures
        r == has_math_arg(cx.sig(n as int)),
{
    match cx.command_sig(n) {
        Some(sig) => {
            let mut i: usize = 0;
            while i < sig.args.len()
                invariant
                    i <= sig.args@.len(),
                    cx.sig(n as int) == Some(*sig),
                    forall|j: int| 0 <= j < i ==> (#[trigger] sig.args@[j]).domain != ArgumentDomain::Math,
                decreases sig.args@.len() - i,
            {
                if sig.args[i].domain == ArgumentDomain::Math {
                    return true;
                }
                i = i + 1;
            }
            false
        },
        None => false,
    }
}

fn sig_has_arg_of(sig: &CommandSig, content: ContentKind) -> (r: bool)
    ensures
        r == has_arg_of(*sig, content),
{
    let mut i: usize = 0;
    while i < sig.args.len()
        invariant
            i <= sig.args@.len(),
            forall|j: int| 0 <= j < i ==> (#[trigger] sig.args@[j]).content != content,
        decreases sig.args@.len() - i,
    {
        if sig.args[i].content == content {
            return true;
        }
        i = i + 1;
    }
    false
}

/// Whether the command stands in running text and has running text as an argument.
pub open spec fn inline_prose(sig: Option<CommandSig>) -> bool {
    match sig {
        Some(sig) => sig.inline && has_arg_of(sig, ContentKind::Prose),
        None => false,
    }
}

pub fn command_is_inline_prose(cx: LowerCtx, n: usize) -> (r: bool)
    requires
        n < cx.t.n(),
    ensures
        r == inline_prose(cx.sig(n as int)),
{
    match cx.command_sig(n) {
        Some(sig) => sig.inline && sig_has_arg_of(sig, ContentKind::Prose),
        None => false,
    }
}

/// Whether the command stands in running text.
pub open spec fn is_inline(sig: Option<CommandSig>) -> bool {
    match sig {
        Some(sig) => sig.inline,
        None => false,
    }
}

pub fn command_is_inline(cx: LowerCtx, n: usize) -> (r: bool)
    requires
        n < cx.t.n(),
    ensures
        r == is_inline(cx.sig(n as int)),
{
    match cx.command_sig(n) {
        Some(sig) => sig.inline,
        None => false,
    }
}

/// Where the citation stands that the command is.
pub open spec fn citation_of(sig: Option<CommandSig>) -> Option<CitationPlacement> {
    match sig {
        Some(sig) => if sig.inline && has_arg_of(sig, ContentKind::TokenList) {
            sig.citation
        } else {
            None
        },
        None => None,
    }
}

pub fn command_citation_placement(cx: LowerCtx, n: usize) -> (r: Option<CitationPlacement>)
    requires
        n < cx.t.n(),
    ensures
        r == citation_of(cx.sig(n as int)),
{
    match cx.command_sig(n) {
        Some(sig) => if sig.inline && sig_has_arg_of(sig, ContentKind::TokenList) {
            sig.citation
        } else {
            None
        },
        None => None,
    }
}

/// Whether the command opens a section.
pub open spec fn is_sectioning(sig: Option<CommandSig>) -> bool {
    match sig {
        Some(sig) => sig.sectioning,
        None => false,
    }
}

pub fn command_is_sectioning(cx: LowerCtx, n: usize) -> (r: bool)
    requires
        n < cx.t.n(),
    ensures
        r == is_sectioning(cx.sig(n as int)),
{
    match cx.command_sig(n) {
        Some(sig) => sig.sectioning,
        None => false,
    }
}

/// Whether the element is a command that sets a label.
pub open spec fn is_label(t: &Tree, e: int) -> bool {
    t.node_is(e, SyntaxKind::Command) && t.named(e, "label"@)
}

pub fn is_label_command(cx: LowerCtx, e: usize) -> (r: bool)
    requires
        e < cx.t.n(),
    ensures
        r == is_label(cx.t, e as int),
{
    cx.t.is_node(e, SyntaxKind::Command) && cx.t.is_named(e, "label")
}

/// Whether the node has a node as a child.
pub open spec fn has_child_node(t: &Tree, n: int) -> bool {
    exists|i: int| 0 <= i < t.kids(n).len() && !t.tok(#[trigger] t.kids(n)[i] as int)
}

pub fn has_node_child(cx: LowerCtx, n: usize) -> (r: bool)
    requires
        cx.ok(),
        n < cx.t.n(),
    ensures
        r == has_child_node(cx.t, n as int),
{
    let es = cx.children(n);
    let mut i: usize = 0;
    while i < es.len()
        invariant
            es@ == cx.t.kids(n as int),
            in_tree(cx.t, es@),
            i <= es@.len(),
            forall|j: int| 0 <= j < i ==> cx.t.tok(#[trigger] es@[j] as int),
        decreases es@.len() - i,
    {
        if !cx.t.is_token(es[i]) {
            assert(!cx.t.tok(cx.t.kids(n as int)[i as int] as int));
            return true;
        }
        i = i + 1;
    }
    false
}

/// Whether the command stands on a line of its own: one that needs an argument must have one.
pub open spec fn is_block(cx: LowerCtx, n: int) -> bool {
    match cx.sig(n) {
        Some(sig) => sig.block && ((forall|i: int| 0 <= i < sig.args@.len() ==> !(#[trigger] sig.args@[i]).required)
            || has_child_node(cx.t, n)),
        None => false,
    }
}

pub fn command_is_block(cx: LowerCtx, n: usize) -> (r: bool)
    requires
        cx.ok(),
        n < cx.t.n(),
    ensures
        r == is_block(cx, n as int),
{
    match cx.command_sig(n) {
        Some(sig) => {
            if !sig.block {
                return false;
            }
            let mut i: usize = 0;
            while i < sig.args.len()
                invariant
                    cx.ok(),
                    n < cx.t.n(),
                    cx.sig(n as int) == Some(*sig),
                    sig.block,
                    i <= sig.args@.len(),
                    forall|j: int| 0 <= j < i ==> !(#[trigger] sig.args@[j]).required,
                decreases sig.args@.len() - i,
            {
                if sig.args[i].required {
                    return has_node_child(cx, n);
                }
                i = i + 1;
            }
            true
        },
        None => false,
    }
}

// ---- lists of elements ---------------------------------------------------------------------

/// Whether the line from `i` on is commands outside running text alone, and `saw` or one of
/// them is there.
pub open spec fn command_only(cx: LowerCtx, es: Seq<usize>, i: int, saw: bool) -> bool
    decreases es.len() - i,
{
    if i < 0 || i >= es.len() {
        saw
    } else {
        let e = es[i] as int;
        if cx.t.tok_is(e, SyntaxKind::Newline) || cx.t.tok_is(e, SyntaxKind::Comment) {
            saw
        } else if (cx.is_dtx && cx.t.tok_is(e, SyntaxKind::DocMargin)) || cx.t.tok_is(e, SyntaxKind::Whitespace) {
            command_only(cx, es, i + 1, saw)
        } else if cx.t.node_is(e, SyntaxKind::Command) && !is_inline(cx.sig(e)) {
            command_only(cx, es, i + 1, true)
        } else {
            false
        }
    }
}

pub fn line_is_command_only(cx: LowerCtx, es: &Vec<usize>, start: usize) -> (r: bool)
    requires
        in_tree(cx.t, es@),
    ensures
        r == command_only(cx, es@, start as int, false),
{
    let mut saw = false;
    let mut i: usize = start;
    while i < es.len()
        invariant
            in_tree(cx.t, es@),
            command_only(cx, es@, i as int, saw) == command_only(cx, es@, start as int, false),
        decreases es@.len() - i,
    {
        let e: usize = es[i];
        if cx.t.token_is(e, SyntaxKind::Newline) || cx.t.token_is(e, SyntaxKind::Comment) {
            return saw;
        }
        if (cx.is_dtx && cx.t.token_is(e, SyntaxKind::DocMargin)) || cx.t.token_is(e, SyntaxKind::Whitespace) {
        } else if cx.t.is_node(e, SyntaxKind::Command) && !command_is_inline(cx, e) {
            saw = true;
        } else {
            return false;
        }
        i = i + 1;
    }
    saw
}

/// Whether a line may end behind element `i`.
pub open spec fn separated(t: &Tree, es: Seq<usize>, i: int) -> bool {
    i + 1 >= es.len() || gap_at(t, es, i + 1) || tok_at(t, es, i + 1, SyntaxKind::Comment)
}

pub fn next_is_separated(cx: LowerCtx, es: &Vec<usize>, i: usize) -> (r: bool)
    requires
        in_tree(cx.t, es@),
        i < es@.len(),
    ensures
        r == separated(cx.t, es@, i as int),
{
    assert(i < es.len());
    i + 1 >= es.len() || cx.is_gap_at(es, i + 1) || cx.token_at(es, i + 1, SyntaxKind::Comment)
}

/// Whether the element is white space or a margin.
pub open spec fn framing(cx: LowerCtx, e: int) -> bool {
    cx.t.gap(e) || (cx.is_dtx && cx.t.tok_is(e, SyntaxKind::DocMargin))
}

/// Whether the first element from `i` on that is no framing sets a label.
pub open spec fn label_next(cx: LowerCtx, es: Seq<usize>, i: int) -> bool
    decreases es.len() - i,
{
    if i < 0 || i >= es.len() {
        false
    } else if framing(cx, es[i] as int) {
        label_next(cx, es, i + 1)
    } else {
        is_label(cx.t, es[i] as int)
    }
}

pub fn is_section_label_framing(cx: LowerCtx, e: usize) -> (r: bool)
    requires
        e < cx.t.n(),
    ensures
        r == framing(cx, e as int),
{
    cx.t.is_gap(e) || (cx.is_dtx && cx.t.token_is(e, SyntaxKind::DocMargin))
}

pub fn next_nontrivia_is_label(cx: LowerCtx, es: &Vec<usize>, i: usize) -> (r: bool)
    requires
        in_tree(cx.t, es@),
        i < es@.len(),
    ensures
        r == label_next(cx, es@, i + 1),
{
    assert(i < es.len());
    let mut j: usize = i + 1;
    while j < es.len()
        invariant
            in_tree(cx.t, es@),
            label_next(cx, es@, j as int) == label_next(cx, es@, i + 1),
        decreases es@.len() - j,
    {
        if !is_section_label_framing(cx, es[j]) {
            return is_label_command(cx, es[j]);
        }
        j = j + 1;
    }
    false
}

/// Whether only labels and framing stand between a section of the paragraph and element `i`.
pub open spec fn label_run(cx: LowerCtx, es: Seq<usize>, i: int) -> bool
    decreases i,
{
    if i <= 0 || i > es.len() {
        false
    } else {
        let e = es[i - 1] as int;
        if framing(cx, e) || is_label(cx.t, e) {
            label_run(cx, es, i - 1)
        } else if cx.t.node_is(e, SyntaxKind::Command) && is_sectioning(cx.sig(e)) {
            e > 0 && cx.t.k(cx.t.up(e)) == SyntaxKind::Paragraph
        } else {
            false
        }
    }
}

/// Whether the parent of the node is of that kind.
pub open spec fn parent_is(t: &Tree, e: int, kind: SyntaxKind) -> bool {
    e > 0 && t.k(t.up(e)) == kind
}

pub fn has_parent(cx: LowerCtx, e: usize, kind: SyntaxKind) -> (r: bool)
    requires
        cx.ok(),
        e < cx.t.n(),
    ensures
        r == parent_is(cx.t, e as int, kind),
{
    proof {
        reveal(LowerCtx::ok);
        if e > 0 {
            assert(cx.t.up(e as int) < e);
        }
    }
    e > 0 && cx.t.kind(cx.t.parent(e)) == kind
}

pub fn label_follows_sectioning_run(cx: LowerCtx, es: &Vec<usize>, i: usize) -> (r: bool)
    requires
        cx.ok(),
        in_tree(cx.t, es@),
        i <= es@.len(),
    ensures
        r == label_run(cx, es@, i as int),
{
    let mut j: usize = i;
    while j > 0
        invariant
            cx.ok(),
            in_tree(cx.t, es@),
            j <= es@.len(),
            label_run(cx, es@, j as int) == label_run(cx, es@, i as int),
        decreases j,
    {
        let e: usize = es[j - 1];
        if !(is_section_label_framing(cx, e) || is_label_command(cx, e)) {
            return cx.t.is_node(e, SyntaxKind::Command) && command_is_sectioning(cx, e) && has_parent(
                cx,
                e,
                SyntaxKind::Paragraph,
            );
        }
        j = j - 1;
    }
    false
}

/// Whether a comment is the last thing in the node before its closing delimiter.
pub open spec fn comment_ends(t: &Tree, n: int, close: SyntaxKind, i: int) -> bool
    decreases i - n,
{
    if i <= n {
        false
    } else if !t.tok(i) {
        comment_ends(t, n, close, i - 1)
    } else if t.k(i) == SyntaxKind::Comment {
        true
    } else if t.k(i) == close || collapsible(t.k(i)) {
        comment_ends(t, n, close, i - 1)
    } else {
        false
    }
}

pub fn body_ends_with_comment(cx: LowerCtx, n: usize, close: SyntaxKind) -> (r: bool)
    requires
        cx.ok(),
        n < cx.t.n(),
    ensures
        r == comment_ends(cx.t, n as int, close, cx.t.end(n as int) - 1),
{
    proof {
        reveal(LowerCtx::ok);
        assert(n < cx.t.end(n as int) <= cx.t.n());
    }
    let mut i: usize = cx.t.subtree_end(n) - 1;
    while i > n
        invariant
            i < cx.t.n(),
            comment_ends(cx.t, n as int, close, i as int) == comment_ends(
                cx.t,
                n as int,
                close,
                cx.t.end(n as int) - 1,
            ),
        decreases i,
    {
        if cx.t.is_token(i) {
            let k = cx.t.kind(i);
            if k == SyntaxKind::Comment {
                return true;
            }
            if !(k == close || k == SyntaxKind::Whitespace || k == SyntaxKind::Newline) {
                return false;
            }
        }
        i = i - 1;
    }
    false
}

/// The first token in a stretch of the tree that is not white space within a line, if it is a
/// comment; `None` if it is not; and whether there is such a token at all.
pub open spec fn inline_comment_in(t: &Tree, i: int, hi: int) -> (bool, Option<usize>)
    decreases hi - i,
{
    if i < 0 || i >= hi {
        (false, None)
    } else if !t.tok(i) || t.k(i) == SyntaxKind::Whitespace {
        inline_comment_in(t, i + 1, hi)
    } else if t.k(i) == SyntaxKind::Comment {
        (true, Some(i as usize))
    } else {
        (true, None)
    }
}

/// The comment that stands on the first line of a list of elements, with nothing before it.
pub open spec fn leading_comment(t: &Tree, es: Seq<usize>, i: int) -> Option<usize>
    decreases es.len() - i,
{
    if i < 0 || i >= es.len() {
        None
    } else {
        let (found, comment) = inline_comment_in(t, es[i] as int, t.end(es[i] as int));
        if found {
            comment
        } else {
            leading_comment(t, es, i + 1)
        }
    }
}

pub fn leading_inline_comment(cx: LowerCtx, es: &Vec<usize>) -> (r: Option<usize>)
    requires
        cx.ok(),
        in_tree(cx.t, es@),
    ensures
        r == leading_comment(cx.t, es@, 0),
        r matches Some(c) ==> c < cx.t.n(),
{
    let mut i: usize = 0;
    while i < es.len()
        invariant
            cx.ok(),
            in_tree(cx.t, es@),
            leading_comment(cx.t, es@, i as int) == leading_comment(cx.t, es@, 0),
        decreases es@.len() - i,
    {
        let lo: usize = es[i];
        let hi: usize = cx.t.subtree_end(lo);
        proof {
            reveal(LowerCtx::ok);
            assert(cx.t.end(lo as int) <= cx.t.n());
        }
        let mut j: usize = lo;
        while j < hi
            invariant
                hi <= cx.t.n(),
                hi == cx.t.end(lo as int),
                i < es@.len(),
                lo == es@[i as int],
                inline_comment_in(cx.t, j as int, hi as int) == inline_comment_in(cx.t, lo as int, hi as int),
                leading_comment(cx.t, es@, i as int) == leading_comment(cx.t, es@, 0),
            decreases hi - j,
        {
            if cx.t.is_token(j) && cx.t.kind(j) != SyntaxKind::Whitespace {
                if cx.t.kind(j) == SyntaxKind::Comment {
                    return Some(j);
                }
                return None;
            }
            j = j + 1;
        }
        i = i + 1;
    }
    None
}

/// The control symbol with a line feed that a body ends in, with blanks alone behind it.
pub open spec fn control_newline(t: &Tree, first: int, i: Option<usize>) -> Option<usize>
    decreases (match i { Some(i) => i as int + 1, None => 0 }),
{
    match i {
        Some(i) => if i < first {
            None
        } else if t.k(i as int) == SyntaxKind::Whitespace {
            match t.prev_tok(i as int) {
                Some(j) => if j < i {
                    control_newline(t, first, Some(j))
                } else {
                    None
                },
                None => None,
            }
        } else if t.k(i as int) == SyntaxKind::ControlSymbol && has_tail(t.txt(i as int), seq!['\n']) {
            Some(i)
        } else {
            None
        },
        None => None,
    }
}

/// The control symbol with a line feed that a list of elements ends in.
pub open spec fn trailing_newline(t: &Tree, es: Seq<usize>) -> Option<usize> {
    if es.len() == 0 {
        None
    } else {
        control_newline(t, es[0] as int, t.tail(es.last() as int))
    }
}

pub fn trailing_control_newline(cx: LowerCtx, es: &Vec<usize>) -> (r: Option<usize>)
    requires
        cx.ok(),
        in_tree(cx.t, es@),
    ensures
        r == trailing_newline(cx.t, es@),
        r matches Some(i) ==> i < cx.t.n(),
{
    if es.len() == 0 {
        return None;
    }
    proof {
        reveal(LowerCtx::ok);
        reveal_strlit("\n");
        assert("\n"@ =~= seq!['\n']);
    }
    let first: usize = es[0];
    let mut at: Option<usize> = cx.t.last_token(es[es.len() - 1]);
    let ghost start = at;
    loop
        invariant
            cx.ok(),
            cx.t.wf(),
            "\n"@ == seq!['\n'],
            es@.len() > 0,
            first == es@[0],
            start == cx.t.tail(es@.last() as int),
            at matches Some(i) ==> i < cx.t.n(),
            control_newline(cx.t, first as int, at) == control_newline(cx.t, first as int, start),
        decreases (match at { Some(i) => i as int + 1, None => 0 }),
    {
        match at {
            None => {
                return None;
            },
            Some(i) => {
                if i < first {
                    return None;
                }
                if cx.t.kind(i) == SyntaxKind::Whitespace {
                    match cx.t.prev_token(i) {
                        Some(j) => {
                            if j >= i {
                                return None;
                            }
                            at = Some(j);
                        },
                        None => {
                            return None;
                        },
                    }
                } else if cx.t.kind(i) == SyntaxKind::ControlSymbol && ends_with(cx.t.text(i), "\n") {
                    return Some(i);
                } else {
                    return None;
                }
            },
        }
    }
}

impl<'a> LowerCtx<'a> {
    /// The context for a body whose last line feed the closing frame supplies.
    pub open spec fn absorbing(self, es: Seq<usize>) -> LowerCtx<'a> {
        match trailing_newline(self.t, es) {
            Some(i) => LowerCtx { absorbed: Some(self.t.elems@[i as int].span), ..self },
            None => self,
        }
    }

    pub fn absorbing_trailing_control_newline(self, es: &Vec<usize>) -> (r: LowerCtx<'a>)
        requires
            self.ok(),
            in_tree(self.t, es@),
        ensures
            r == self.absorbing(es@),
            r.ok(),
            r.t == self.t,
    {
        proof {
            reveal(LowerCtx::ok);
        }
        match trailing_control_newline(self, es) {
            Some(i) => LowerCtx { absorbed: Some(self.t.span(i)), ..self },
            None => self,
        }
    }

    /// Whether the line feed of the token is supplied by the closing frame.
    pub open spec fn absorbs(self, i: int) -> bool {
        self.absorbed == Some(self.t.elems@[i].span)
    }

    pub fn absorbs_control_newline(&self, i: usize) -> (r: bool)
        requires
            i < self.t.n(),
        ensures
            r == self.absorbs(i as int),
    {
        match self.absorbed {
            Some(span) => span == self.t.span(i),
            None => false,
        }
    }
}

} // verus!

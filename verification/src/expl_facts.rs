//! What decides the layout of an expl3 group.

use vstd::prelude::*;

use crate::context::{in_tree, LowerCtx};
use crate::flatten::gap_start;
use crate::gap::gap_end;
use crate::predicates::{contains_token, has_tok};
use crate::syntax::{SyntaxKind, Tree};
use crate::text::contains_char;

verus! {

/// Whether a comment, a guard or a margin is in the group, which then is broken at every width.
pub open spec fn group_breaks(t: &Tree, n: int) -> bool {
    has_tok(t, n, SyntaxKind::Comment) || has_tok(t, n, SyntaxKind::Guard) || has_tok(t, n, SyntaxKind::DocMargin)
}

pub fn expl_group_forces_break(cx: LowerCtx, n: usize) -> (r: bool)
    requires
        cx.ok(),
        n < cx.t.n(),
    ensures
        r == group_breaks(cx.t, n as int),
{
    contains_token(cx, n, SyntaxKind::Comment) || contains_token(cx, n, SyntaxKind::Guard) || contains_token(
        cx,
        n,
        SyntaxKind::DocMargin,
    )
}

/// How many of the first `i` elements are nodes of the kind.
pub open spec fn count_nodes(t: &Tree, es: Seq<usize>, kind: SyntaxKind, i: int) -> int
    decreases i,
{
    if i <= 0 || i > es.len() {
        0
    } else {
        count_nodes(t, es, kind, i - 1) + if t.node_is(es[i - 1] as int, kind) {
            1int
        } else {
            0
        }
    }
}

pub fn nodes_of(cx: LowerCtx, es: &Vec<usize>, kind: SyntaxKind) -> (r: usize)
    requires
        in_tree(cx.t, es@),
    ensures
        r == count_nodes(cx.t, es@, kind, es@.len() as int),
        r <= es@.len(),
{
    let mut count: usize = 0;
    let mut i: usize = 0;
    while i < es.len()
        invariant
            in_tree(cx.t, es@),
            i <= es@.len(),
            count <= i,
            count == count_nodes(cx.t, es@, kind, i as int),
        decreases es@.len() - i,
    {
        if cx.t.is_node(es[i], kind) {
            count = count + 1;
        }
        i = i + 1;
    }
    count
}

/// Whether the group holds several commands.
pub open spec fn multi_atom(t: &Tree, n: int) -> bool {
    count_nodes(t, t.kids(n), SyntaxKind::Command, t.kids(n).len() as int) >= 2
}

pub fn expl_group_body_is_multi_atom(cx: LowerCtx, n: usize) -> (r: bool)
    requires
        cx.ok(),
        n < cx.t.n(),
    ensures
        r == multi_atom(cx.t, n as int),
{
    let es = cx.children(n);
    nodes_of(cx, &es, SyntaxKind::Command) >= 2
}

// ---- runs of parameters --------------------------------------------------------------------

pub open spec fn is_delimiter(kind: SyntaxKind) -> bool {
    kind == SyntaxKind::LBrace || kind == SyntaxKind::RBrace || kind == SyntaxKind::LBracket || kind
        == SyntaxKind::RBracket
}

fn is_delimiter_kind(kind: SyntaxKind) -> (r: bool)
    ensures
        r == is_delimiter(kind),
{
    kind == SyntaxKind::LBrace || kind == SyntaxKind::RBrace || kind == SyntaxKind::LBracket || kind
        == SyntaxKind::RBracket
}

/// The elements before `i` other than delimiters.
pub open spec fn undelimited(t: &Tree, es: Seq<usize>, i: int) -> Seq<usize>
    decreases i,
{
    if i <= 0 || i > es.len() {
        Seq::empty()
    } else if is_delimiter(t.k(es[i - 1] as int)) {
        undelimited(t, es, i - 1)
    } else {
        undelimited(t, es, i - 1).push(es[i - 1])
    }
}

/// Whether a text is the number of a parameter.
pub open spec fn param_digit(text: Seq<char>) -> bool {
    text.len() == 1 && '1' <= text[0] <= '9'
}

/// Whether the elements from `i` up to `hi` are hashes and, each behind a hash, numbers of
/// parameters. `hash` holds behind a hash, and `saw` once there was one.
pub open spec fn params_from(t: &Tree, es: Seq<usize>, i: int, hi: int, hash: bool, saw: bool) -> bool
    decreases hi - i,
{
    if i < 0 || i >= hi || hi > es.len() {
        saw
    } else if t.k(es[i] as int) == SyntaxKind::Hash {
        params_from(t, es, i + 1, hi, true, true)
    } else {
        t.k(es[i] as int) == SyntaxKind::Word && hash && param_digit(t.txt(es[i] as int)) && params_from(
            t,
            es,
            i + 1,
            hi,
            false,
            saw,
        )
    }
}

/// Whether the elements are parameters with nothing between them, such as `#1#2`. White space
/// around them does not count.
pub open spec fn param_run(t: &Tree, n: int) -> bool {
    let es = undelimited(t, t.kids(n), t.kids(n).len() as int);
    let lo = gap_end(t, es, 0);
    let hi = gap_start(t, es, es.len() as int);
    (forall|i: int| 0 <= i < t.kids(n).len() ==> t.tok(#[trigger] t.kids(n)[i] as int)) && params_from(
        t,
        es,
        lo,
        hi,
        false,
        false,
    )
}

fn is_param_digit(text: &str) -> (r: bool)
    ensures
        r == param_digit(text@),
{
    if text.unicode_len() != 1 {
        return false;
    }
    let c = text.get_char(0);
    '1' <= c && c <= '9'
}

pub fn is_simple_param_run(cx: LowerCtx, n: usize) -> (r: bool)
    requires
        cx.ok(),
        n < cx.t.n(),
    ensures
        r == param_run(cx.t, n as int),
{
    let all = cx.children(n);
    let mut es: Vec<usize> = Vec::new();
    let mut i: usize = 0;
    assert(es@ =~= Seq::<usize>::empty());
    while i < all.len()
        invariant
            in_tree(cx.t, all@),
            in_tree(cx.t, es@),
            all@ == cx.t.kids(n as int),
            i <= all@.len(),
            es@ == undelimited(cx.t, all@, i as int),
            forall|j: int| 0 <= j < i ==> cx.t.tok(#[trigger] all@[j] as int),
        decreases all@.len() - i,
    {
        let e: usize = all[i];
        if !cx.t.is_token(e) {
            return false;
        }
        if !is_delimiter_kind(cx.t.kind(e)) {
            es.push(e);
        }
        i = i + 1;
    }
    let (_, lo) = cx.consume_widened_gap_slice(&es, 0);
    let mut hi: usize = es.len();
    while hi > 0 && cx.t.is_gap(es[hi - 1])
        invariant
            in_tree(cx.t, es@),
            hi <= es@.len(),
            gap_start(cx.t, es@, hi as int) == gap_start(cx.t, es@, es@.len() as int),
        decreases hi,
    {
        hi = hi - 1;
    }
    let mut hash = false;
    let mut saw = false;
    let mut i: usize = lo;
    while i < hi
        invariant
            in_tree(cx.t, es@),
            hi <= es@.len(),
            lo <= i,
            es@ == undelimited(cx.t, cx.t.kids(n as int), cx.t.kids(n as int).len() as int),
            lo == gap_end(cx.t, es@, 0),
            hi == gap_start(cx.t, es@, es@.len() as int),
            params_from(cx.t, es@, i as int, hi as int, hash, saw) == params_from(
                cx.t,
                es@,
                lo as int,
                hi as int,
                false,
                false,
            ),
        decreases hi - i,
    {
        let e: usize = es[i];
        if cx.t.kind(e) == SyntaxKind::Hash {
            hash = true;
            saw = true;
        } else if cx.t.kind(e) == SyntaxKind::Word && hash && is_param_digit(cx.t.text(e)) {
            hash = false;
        } else {
            return false;
        }
        i = i + 1;
    }
    saw
}

// ---- names ---------------------------------------------------------------------------------

/// Whether a name is one of expl3.
pub open spec fn expl_named(name: Seq<char>) -> bool {
    name.contains('_') || name.contains(':')
}

/// The command of which the node is an argument.
pub open spec fn command_of(t: &Tree, n: int) -> Option<int> {
    if n > 0 && t.k(t.up(n)) == SyntaxKind::Command {
        Some(t.up(n))
    } else {
        None
    }
}

fn parent_command(cx: LowerCtx, n: usize) -> (r: Option<usize>)
    requires
        cx.ok(),
        n < cx.t.n(),
    ensures
        r is Some == command_of(cx.t, n as int) is Some,
        r matches Some(p) ==> command_of(cx.t, n as int) == Some(p as int) && p < n,
{
    proof {
        reveal(LowerCtx::ok);
    }
    if n > 0 {
        let p: usize = cx.t.parent(n);
        assert(p < n);
        if cx.t.kind(p) == SyntaxKind::Command {
            return Some(p);
        }
    }
    None
}

/// Whether the group has a space inside each of its braces: it has in expl3 code, but for runs
/// of parameters and the arguments of other commands.
pub open spec fn group_spaced(t: &Tree, n: int) -> bool {
    !param_run(t, n) && match command_of(t, n) {
        Some(p) => match t.elems@[p].facts.name {
            Some(name) => expl_named(name@),
            None => true,
        },
        None => true,
    }
}

pub fn expl_group_is_spaced(cx: LowerCtx, n: usize) -> (r: bool)
    requires
        cx.ok(),
        n < cx.t.n(),
    ensures
        r == group_spaced(cx.t, n as int),
{
    if is_simple_param_run(cx, n) {
        return false;
    }
    match parent_command(cx, n) {
        Some(p) => match &cx.t.elems[p].facts.name {
            Some(name) => contains_char(name.as_str(), '_') || contains_char(name.as_str(), ':'),
            None => true,
        },
        None => true,
    }
}

/// Whether the group has a space before it: it has where it is an argument of an expl3 command.
pub open spec fn takes_space(t: &Tree, n: int) -> bool {
    match command_of(t, n) {
        Some(p) => match t.elems@[p].facts.name {
            Some(name) => expl_named(name@),
            None => false,
        },
        None => false,
    }
}

pub fn expl_arg_takes_leading_space(cx: LowerCtx, n: usize) -> (r: bool)
    requires
        cx.ok(),
        n < cx.t.n(),
    ensures
        r == takes_space(cx.t, n as int),
{
    match parent_command(cx, n) {
        Some(p) => match &cx.t.elems[p].facts.name {
            Some(name) => contains_char(name.as_str(), '_') || contains_char(name.as_str(), ':'),
            None => false,
        },
        None => false,
    }
}

// ---- statements ----------------------------------------------------------------------------

/// Whether only white space stands from `i` on.
pub open spec fn only_gaps_from(t: &Tree, es: Seq<usize>, i: int) -> bool {
    forall|j: int| i <= j < es.len() ==> t.gap(#[trigger] es[j] as int)
}

/// Whether a statement ends behind the element.
pub open spec fn ends(t: &Tree, e: int) -> bool {
    t.elems@[e].facts.ends_statement
}

/// Whether the element at `i` is the last of its statement.
pub open spec fn trailing(t: &Tree, es: Seq<usize>, i: int, structural: bool) -> bool {
    (structural && ends(t, es[i] as int)) || only_gaps_from(t, es, i + 1)
}

pub fn is_trailing_in_statement(cx: LowerCtx, es: &Vec<usize>, i: usize, structural: bool) -> (r: bool)
    requires
        in_tree(cx.t, es@),
        i < es@.len(),
    ensures
        r == trailing(cx.t, es@, i as int, structural),
{
    if structural && cx.t.elems[es[i]].facts.ends_statement {
        return true;
    }
    let n: usize = es.len();
    let mut j: usize = i + 1;
    while j < n
        invariant
            in_tree(cx.t, es@),
            n == es@.len(),
            i < j <= n,
            !(structural && ends(cx.t, es@[i as int] as int)),
            forall|k: int| i < k < j ==> cx.t.gap(#[trigger] es@[k] as int),
        decreases n - j,
    {
        if !cx.t.is_gap(es[j]) {
            assert(!cx.t.gap(es@[j as int] as int));
            return false;
        }
        j = j + 1;
    }
    true
}

pub open spec fn is_arg_kind(kind: SyntaxKind) -> bool {
    kind == SyntaxKind::Group || kind == SyntaxKind::Optional
}

/// Whether a group stands before `i` in the same statement.
pub open spec fn group_before(t: &Tree, es: Seq<usize>, i: int, structural: bool) -> bool
    decreases i,
{
    if i <= 0 || i > es.len() || (structural && ends(t, es[i - 1] as int)) {
        false
    } else {
        (!t.tok(es[i - 1] as int) && is_arg_kind(t.k(es[i - 1] as int))) || group_before(t, es, i - 1, structural)
    }
}

pub fn statement_has_preceding_group(cx: LowerCtx, es: &Vec<usize>, i: usize, structural: bool) -> (r: bool)
    requires
        in_tree(cx.t, es@),
        i <= es@.len(),
    ensures
        r == group_before(cx.t, es@, i as int, structural),
{
    let mut j: usize = i;
    while j > 0
        invariant
            in_tree(cx.t, es@),
            j <= i <= es@.len(),
            group_before(cx.t, es@, j as int, structural) == group_before(cx.t, es@, i as int, structural),
        decreases j,
    {
        let e: usize = es[j - 1];
        if structural && cx.t.elems[e].facts.ends_statement {
            return false;
        }
        if cx.t.is_node(e, SyntaxKind::Group) || cx.t.is_node(e, SyntaxKind::Optional) {
            return true;
        }
        j = j - 1;
    }
    false
}

/// Whether a group is among the elements from `i` on that start before `start`. The first that
/// does not start there ends the row.
pub open spec fn group_starts_before(t: &Tree, es: Seq<usize>, i: int, start: int) -> bool
    decreases es.len() - i,
{
    if i < 0 || i >= es.len() || t.from(es[i] as int) >= start {
        false
    } else {
        is_arg_kind(t.k(es[i] as int)) || group_starts_before(t, es, i + 1, start)
    }
}

/// Whether an earlier argument of the command that owns the node is a group.
pub open spec fn grouped_sibling(t: &Tree, n: int) -> bool {
    match command_of(t, n) {
        Some(p) => group_starts_before(t, t.kids(p), 0, t.from(n)),
        None => false,
    }
}

/// Whether an earlier argument of the command that owns the node is a group: the command then
/// takes several arguments, and the node is not the one body that hangs behind it.
pub fn head_command_has_grouped_sibling_arg(cx: LowerCtx, n: usize) -> (r: bool)
    requires
        cx.ok(),
        n < cx.t.n(),
    ensures
        r == grouped_sibling(cx.t, n as int),
{
    match parent_command(cx, n) {
        Some(p) => {
            let start: usize = cx.t.span(n).start;
            let es = cx.children(p);
            let mut i: usize = 0;
            while i < es.len() && cx.t.span(es[i]).start < start
                invariant
                    in_tree(cx.t, es@),
                    i <= es@.len(),
                    es@ == cx.t.kids(p as int),
                    command_of(cx.t, n as int) == Some(p as int),
                    start == cx.t.from(n as int),
                    group_starts_before(cx.t, es@, i as int, start as int) == group_starts_before(
                        cx.t,
                        es@,
                        0,
                        start as int,
                    ),
                decreases es@.len() - i,
            {
                if cx.t.kind(es[i]) == SyntaxKind::Group || cx.t.kind(es[i]) == SyntaxKind::Optional {
                    return true;
                }
                i = i + 1;
            }
            false
        },
        None => false,
    }
}

} // verus!

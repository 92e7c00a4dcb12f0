//! Expl3 code.

use vstd::prelude::*;

use crate::commands::{comment_lines, first_child_node, first_node, lower_comment_lines};
use crate::context::{fits, in_tree, node_at, part, room, tok_at, LowerCtx};
use crate::environments::spaces_end;
use crate::expl_facts::{
    ends, expl_arg_takes_leading_space, expl_group_body_is_multi_atom, expl_group_forces_break,
    expl_group_is_spaced, group_before, group_breaks, group_spaced, grouped_sibling,
    head_command_has_grouped_sibling_arg, is_trailing_in_statement, multi_atom,
    statement_has_preceding_group, takes_space, trailing,
};
use crate::flatten::{closer, inner, opener, split_delimited};
use crate::gap::{gap_end, gap_newlines, lemma_gap_end, peel_back, peel_front, trim_leading_break, trim_trailing_break};
use crate::groups::{lower_delimiter, token_layout};
use crate::ir::{
    concat, concat2, concat3, concat4, forces_break, group, indent, space, verbatim, Ir, IrList, Layout,
};
use crate::lower::{loose, lower_loose_token, lower_node, node};
use crate::predicates::{any_node, any_node_of};
use crate::statements::{BraceParts, Braces, Code, CodeBuilder};
use crate::syntax::{SyntaxKind, Tree};

verus! {

// ---- groups --------------------------------------------------------------------------------

/// A group: laid out already, or its parts.
pub enum GroupParts {
    Whole(Layout),
    Parts { braces: Braces, forced: bool },
}

/// The comment that opens a body, and how many elements of the body it takes.
pub open spec fn lead_comment(t: &Tree, es: Seq<usize>) -> (Layout, int) {
    let i = spaces_end(t, es, 0);
    if tok_at(t, es, i, SyntaxKind::Comment) {
        (
            if i > 0 {
                concat2(space(), verbatim(t.txt(es[i] as int)))
            } else {
                verbatim(t.txt(es[i] as int))
            },
            i + 1,
        )
    } else {
        (Layout::Nil, 0)
    }
}

fn take_lead_comment(cx: LowerCtx, es: &Vec<usize>) -> (r: (Ir, usize))
    requires
        in_tree(cx.t, es@),
    ensures
        (r.0@, r.1 as int) == lead_comment(cx.t, es@),
        r.1 <= es@.len(),
{
    let mut i: usize = 0;
    while i < es.len() && cx.t.token_is(es[i], SyntaxKind::Whitespace)
        invariant
            in_tree(cx.t, es@),
            i <= es@.len(),
            spaces_end(cx.t, es@, i as int) == spaces_end(cx.t, es@, 0),
        decreases es@.len() - i,
    {
        i = i + 1;
    }
    if i < es.len() && cx.t.token_is(es[i], SyntaxKind::Comment) {
        let comment = Ir::verbatim(cx.t.text(es[i]));
        (
            if i > 0 {
                Ir::concat2(Ir::space(), comment)
            } else {
                comment
            },
            i + 1,
        )
    } else {
        (Ir::Nil, 0)
    }
}

/// What a group with that body comes to.
pub open spec fn group_of(open: Layout, lead: Layout, body: Layout, close: Layout, spaced: bool, forced: bool) -> GroupParts {
    let opening = concat2(open, lead);
    if body is Nil {
        GroupParts::Whole(
            if lead is Nil {
                concat2(opening, close)
            } else {
                concat3(opening, Layout::HardLine, close)
            },
        )
    } else {
        GroupParts::Parts {
            braces: Braces { open: opening, body, close, spaced },
            forced: !(lead is Nil) || forced,
        }
    }
}

/// The parts of a group.
pub open spec fn group_parts(cx: LowerCtx, n: int, open: SyntaxKind, close: SyntaxKind, fuel: nat) -> GroupParts
    decreases fuel, 8int, 0int,
{
    let t = cx.t;
    let es = t.kids(n);
    let all = inner(t, es, open, close, es.len() as int);
    let (lead, taken) = lead_comment(t, all);
    let body = if fuel == 0 {
        Layout::Nil
    } else {
        peel_back(peel_front(code(cx, all.subrange(taken, all.len() as int), true, (fuel - 1) as nat)).1).1
    };
    group_of(
        token_layout(t, opener(t, es, open, 0)),
        lead,
        body,
        token_layout(t, closer(t, es, open, close, es.len() as int)),
        group_spaced(t, n),
        group_breaks(t, n),
    )
}

pub enum ExplGroupPieces {
    Assembled(Ir),
    Pieces { braces: BraceParts, forced: bool },
}

impl ExplGroupPieces {
    pub open spec fn v(&self) -> GroupParts {
        match self {
            ExplGroupPieces::Assembled(ir) => GroupParts::Whole(ir@),
            ExplGroupPieces::Pieces { braces, forced } => GroupParts::Parts { braces: braces.v(), forced: *forced },
        }
    }
}

fn make_group(open: Ir, lead: Ir, body: Ir, close: Ir, spaced: bool, forced: bool) -> (r: ExplGroupPieces)
    ensures
        r.v() == group_of(open@, lead@, body@, close@, spaced, forced),
{
    let bare = lead.is_nil();
    let opening = Ir::concat2(open, lead);
    if body.is_nil() {
        ExplGroupPieces::Assembled(
            if bare {
                Ir::concat2(opening, close)
            } else {
                Ir::concat3(opening, Ir::HardLine, close)
            },
        )
    } else {
        ExplGroupPieces::Pieces {
            braces: BraceParts { open: opening, body, close, spaced },
            forced: !bare || forced,
        }
    }
}

pub fn expl_group_pieces(cx: LowerCtx, n: usize, open: SyntaxKind, close: SyntaxKind, Ghost(fuel): Ghost<nat>) -> (r:
    ExplGroupPieces)
    requires
        cx.ok(),
        room(cx.t, n as int, fuel),
    ensures
        r.v() == group_parts(cx, n as int, open, close, fuel),
    decreases fuel, 8int, 0int,
{
    let ghost less = (fuel - 1) as nat;
    let es = cx.children(n);
    let d = split_delimited(cx, &es, open, close, Ghost(less));
    let (lead, taken) = take_lead_comment(cx, &d.body);
    let rest = part(&d.body, taken, d.body.len());
    assert(fits(cx.t, rest@, less));
    let code = lower_expl_code(cx, &rest, true, Ghost(less));
    let body = trim_trailing_break(&trim_leading_break(&code));
    make_group(
        lower_delimiter(cx, d.open),
        lead,
        body,
        lower_delimiter(cx, d.close),
        expl_group_is_spaced(cx, n),
        expl_group_forces_break(cx, n),
    )
}

/// A group on its line, or on several where it does not fit.
pub open spec fn group_layout(parts: GroupParts) -> Layout {
    match parts {
        GroupParts::Whole(l) => l,
        GroupParts::Parts { braces, forced } => {
            let boundary = if forced {
                Layout::HardLine
            } else if braces.spaced {
                Layout::Line
            } else {
                Layout::SoftLine
            };
            group(concat4(braces.open, indent(concat2(boundary, braces.body)), boundary, braces.close))
        },
    }
}

fn lay_out_group(parts: ExplGroupPieces) -> (r: Ir)
    ensures
        r@ == group_layout(parts.v()),
{
    match parts {
        ExplGroupPieces::Assembled(ir) => ir,
        ExplGroupPieces::Pieces { braces, forced } => {
            let boundary = if forced {
                Ir::HardLine
            } else if braces.spaced {
                Ir::Line
            } else {
                Ir::SoftLine
            };
            Ir::group(
                Ir::concat4(
                    braces.open,
                    Ir::indent(Ir::concat2(boundary.clone(), braces.body)),
                    boundary,
                    braces.close,
                ),
            )
        },
    }
}

/// An expl3 group.
pub open spec fn expl_group(cx: LowerCtx, n: int, open: SyntaxKind, close: SyntaxKind, fuel: nat) -> Layout
    decreases fuel, 9int, 0int,
{
    group_layout(group_parts(cx, n, open, close, fuel))
}

pub fn lower_expl_group(cx: LowerCtx, n: usize, open: SyntaxKind, close: SyntaxKind, Ghost(fuel): Ghost<nat>) -> (r: Ir)
    requires
        cx.ok(),
        room(cx.t, n as int, fuel),
    ensures
        r@ == expl_group(cx, n as int, open, close, fuel),
    decreases fuel, 9int, 0int,
{
    lay_out_group(expl_group_pieces(cx, n, open, close, Ghost(fuel)))
}

// ---- conditionals --------------------------------------------------------------------------

/// Whether the element may stand among the branches of a conditional.
pub open spec fn branch_element(t: &Tree, e: int) -> bool {
    t.node_is(e, SyntaxKind::Group) || t.gap(e) || t.tok_is(e, SyntaxKind::Comment)
}

pub open spec fn all_branch_elements(t: &Tree, es: Seq<usize>) -> bool {
    forall|i: int| 0 <= i < es.len() ==> branch_element(t, #[trigger] es[i] as int)
}

fn are_branch_elements(cx: LowerCtx, es: &Vec<usize>) -> (r: bool)
    requires
        in_tree(cx.t, es@),
    ensures
        r == all_branch_elements(cx.t, es@),
{
    let mut i: usize = 0;
    while i < es.len()
        invariant
            in_tree(cx.t, es@),
            i <= es@.len(),
            forall|j: int| 0 <= j < i ==> branch_element(cx.t, #[trigger] es@[j] as int),
        decreases es@.len() - i,
    {
        let e: usize = es[i];
        if !(cx.t.is_node(e, SyntaxKind::Group) || cx.t.is_gap(e) || cx.t.token_is(e, SyntaxKind::Comment)) {
            assert(!branch_element(cx.t, es@[i as int] as int));
            return false;
        }
        i = i + 1;
    }
    true
}

/// The branches from `i` on, each on a line of its own one step deeper. A comment stays on the
/// line that it stands on. `gap` and `own` hold behind white space and behind a line break.
pub open spec fn branch_lines(cx: LowerCtx, es: Seq<usize>, i: int, gap: bool, own: bool, fuel: nat) -> Seq<Layout>
    decreases fuel, 96int, es.len() - i,
{
    if i < 0 || i >= es.len() {
        Seq::empty()
    } else {
        let e = es[i] as int;
        if !cx.t.tok(e) {
            seq![
                indent(concat2(Layout::HardLine, expl_group(cx, e, SyntaxKind::LBrace, SyntaxKind::RBrace, fuel))),
            ] + branch_lines(cx, es, i + 1, false, false, fuel)
        } else if cx.t.k(e) == SyntaxKind::Comment {
            let comment = verbatim(cx.t.txt(e));
            seq![
                if own {
                    indent(concat2(Layout::HardLine, comment))
                } else if gap {
                    concat2(space(), comment)
                } else {
                    comment
                },
            ] + branch_lines(cx, es, i + 1, false, false, fuel)
        } else {
            branch_lines(cx, es, i + 1, true, own || cx.t.k(e) == SyntaxKind::Newline, fuel)
        }
    }
}

fn expl_branch_lines(cx: LowerCtx, es: &Vec<usize>, first: Ir, Ghost(fuel): Ghost<nat>) -> (r: IrList)
    requires
        cx.ok(),
        fits(cx.t, es@, fuel),
    ensures
        r@ == seq![first@] + branch_lines(cx, es@, 0, false, false, fuel),
    decreases fuel, 96int, 0int,
{
    let ghost all = seq![first@] + branch_lines(cx, es@, 0, false, false, fuel);
    let ghost head = first@;
    let mut out = IrList::new();
    out.push(first);
    assert(out@ =~= seq![head]);
    let mut gap = false;
    let mut own = false;
    let mut i: usize = 0;
    while i < es.len()
        invariant
            cx.ok(),
            fits(cx.t, es@, fuel),
            i <= es@.len(),
            out@ + branch_lines(cx, es@, i as int, gap, own, fuel) == all,
        decreases es@.len() - i,
    {
        let e: usize = es[i];
        assert(room(cx.t, es@[i as int] as int, fuel));
        let ghost before = out@;
        let ghost here = branch_lines(cx, es@, i as int, gap, own, fuel);
        if !cx.t.is_token(e) {
            let ir = lower_expl_group(cx, e, SyntaxKind::LBrace, SyntaxKind::RBrace, Ghost(fuel));
            out.push(Ir::indent(Ir::concat2(Ir::HardLine, ir)));
            gap = false;
            own = false;
            assert(out@ + branch_lines(cx, es@, i + 1, gap, own, fuel) =~= before + here);
        } else if cx.t.kind(e) == SyntaxKind::Comment {
            let comment = Ir::verbatim(cx.t.text(e));
            out.push(
                if own {
                    Ir::indent(Ir::concat2(Ir::HardLine, comment))
                } else if gap {
                    Ir::concat2(Ir::space(), comment)
                } else {
                    comment
                },
            );
            gap = false;
            own = false;
            assert(out@ + branch_lines(cx, es@, i + 1, gap, own, fuel) =~= before + here);
        } else {
            gap = true;
            own = own || cx.t.kind(e) == SyntaxKind::Newline;
        }
        i = i + 1;
    }
    assert(out@ + branch_lines(cx, es@, i as int, gap, own, fuel) =~= out@);
    out
}

/// Where the last `count` groups before `i` start.
pub open spec fn last_groups(t: &Tree, es: Seq<usize>, count: int, i: int) -> Option<int>
    decreases i,
{
    if count <= 0 {
        Some(i)
    } else if i <= 0 || i > es.len() {
        None
    } else if t.node_is(es[i - 1] as int, SyntaxKind::Group) {
        last_groups(t, es, count - 1, i - 1)
    } else {
        last_groups(t, es, count, i - 1)
    }
}

fn find_last_groups(cx: LowerCtx, es: &Vec<usize>, count: usize) -> (r: Option<usize>)
    requires
        in_tree(cx.t, es@),
    ensures
        r is Some == last_groups(cx.t, es@, count as int, es@.len() as int) is Some,
        r matches Some(i) ==> last_groups(cx.t, es@, count as int, es@.len() as int) == Some(i as int) && i
            <= es@.len(),
{
    let mut left: usize = count;
    let mut i: usize = es.len();
    while left > 0 && i > 0
        invariant
            in_tree(cx.t, es@),
            i <= es@.len(),
            last_groups(cx.t, es@, left as int, i as int) == last_groups(
                cx.t,
                es@,
                count as int,
                es@.len() as int,
            ),
        decreases i,
    {
        if cx.t.is_node(es[i - 1], SyntaxKind::Group) {
            left = left - 1;
        }
        i = i - 1;
    }
    if left == 0 {
        Some(i)
    } else {
        None
    }
}

/// A conditional with a line for each of its branches. There is no such form where the branches
/// are not the last arguments of the command.
pub open spec fn exploded(cx: LowerCtx, n: int, count: int, fuel: nat) -> Option<Layout>
    decreases fuel, 11int, 0int,
{
    let es = cx.t.kids(n);
    match last_groups(cx.t, es, count, es.len() as int) {
        None => None,
        Some(lo) => {
            let tail = es.subrange(lo, es.len() as int);
            if fuel == 0 || !all_branch_elements(cx.t, tail) {
                None
            } else {
                let less = (fuel - 1) as nat;
                let head = peel_back(code(cx, es.subrange(0, lo), false, less)).1;
                Some(concat(seq![head] + branch_lines(cx, tail, 0, false, false, less)))
            }
        },
    }
}

pub fn lower_expl_conditional(cx: LowerCtx, n: usize, count: usize, Ghost(fuel): Ghost<nat>) -> (r: Option<Ir>)
    requires
        cx.ok(),
        room(cx.t, n as int, fuel),
    ensures
        r is Some == exploded(cx, n as int, count as int, fuel) is Some,
        r matches Some(x) ==> exploded(cx, n as int, count as int, fuel) == Some(x@),
    decreases fuel, 11int, 0int,
{
    let ghost less = (fuel - 1) as nat;
    let es = cx.children(n);
    match find_last_groups(cx, &es, count) {
        None => None,
        Some(lo) => {
            let tail = part(&es, lo, es.len());
            let lead = part(&es, 0, lo);
            assert(fits(cx.t, tail@, less));
            assert(fits(cx.t, lead@, less));
            if !are_branch_elements(cx, &tail) {
                return None;
            }
            let code = lower_expl_code(cx, &lead, false, Ghost(less));
            let head = trim_trailing_break(&code);
            Some(Ir::concat(expl_branch_lines(cx, &tail, head, Ghost(less))))
        },
    }
}

/// The node as a conditional with a line for each branch, where it is one.
pub open spec fn conditional_here(cx: LowerCtx, e: int, fuel: nat) -> Option<Layout>
    decreases fuel, 17int, 0int,
{
    match cx.t.elems@[e].facts.branches {
        Some(count) => if cx.t.node_is(e, SyntaxKind::Command) {
            exploded(cx, e, count as int, fuel)
        } else {
            None
        },
        None => None,
    }
}

pub fn expl_conditional_at(cx: LowerCtx, e: usize, Ghost(fuel): Ghost<nat>) -> (r: Option<Ir>)
    requires
        cx.ok(),
        room(cx.t, e as int, fuel),
    ensures
        r is Some == conditional_here(cx, e as int, fuel) is Some,
        r matches Some(x) ==> conditional_here(cx, e as int, fuel) == Some(x@),
    decreases fuel, 17int, 0int,
{
    match cx.t.elems[e].facts.branches {
        Some(count) => if cx.t.is_node(e, SyntaxKind::Command) {
            lower_expl_conditional(cx, e, count, Ghost(fuel))
        } else {
            None
        },
        None => None,
    }
}

// ---- code ----------------------------------------------------------------------------------
//
// With `structural`, the statements that other analyses have found are put on lines of their
// own. Without, the elements are the arguments of one command.

/// Whether the element at `i` stays with what stands before it.
pub open spec fn glued_at(t: &Tree, es: Seq<usize>, i: int, structural: bool) -> bool {
    structural && 0 <= i < es.len() && t.elems@[es[i] as int].facts.glued
}

fn is_glued_at(cx: LowerCtx, es: &Vec<usize>, i: usize, structural: bool) -> (r: bool)
    requires
        in_tree(cx.t, es@),
    ensures
        r == glued_at(cx.t, es@, i as int, structural),
{
    structural && i < es.len() && cx.t.elems[es[i]].facts.glued
}

/// Whether the element at `i` is in a statement of unknown extent.
pub open spec fn fallback_at(t: &Tree, es: Seq<usize>, i: int, structural: bool) -> bool {
    structural && 0 <= i < es.len() && t.elems@[es[i] as int].facts.fallback
}

/// Whether a space before the element at `i` of a command's arguments is not broken.
pub open spec fn bare_argument(t: &Tree, es: Seq<usize>, i: int) -> bool {
    0 <= i < es.len() && !node_at(t, es, i, SyntaxKind::Group) && !node_at(t, es, i, SyntaxKind::Optional) && !tok_at(
        t,
        es,
        i,
        SyntaxKind::Comment,
    )
}

/// What is behind once the white space at `i` is.
pub open spec fn past_gap(t: &Tree, es: Seq<usize>, i: int, s: Code, structural: bool) -> Code {
    let end = gap_end(t, es, i);
    if structural && i > 0 && ends(t, es[i - 1] as int) {
        s.with_boundary(gap_newlines(t, es, i))
    } else {
        s.with_gap(
            gap_newlines(t, es, i),
            (!structural && bare_argument(t, es, end)) || glued_at(t, es, end, structural),
        )
    }
}

/// What is behind once a token is.
pub open spec fn past_token(cx: LowerCtx, es: Seq<usize>, i: int, s: Code, structural: bool) -> Code {
    let e = es[i] as int;
    let kind = cx.t.k(e);
    if kind == SyntaxKind::Tilde {
        s.with_tie(cx.t.txt(e), glued_at(cx.t, es, gap_end(cx.t, es, i + 1), structural))
    } else if kind == SyntaxKind::Comment {
        s.with_comment(cx.t.txt(e))
    } else if kind == SyntaxKind::Guard {
        s.with_guard(loose(cx, e))
    } else {
        s.with_piece(loose(cx, e))
    }
}

/// Whether a command has comments on lines of their own before it.
pub open spec fn is_documented(t: &Tree, e: int) -> bool {
    t.node_is(e, SyntaxKind::Command) && match first_node(t, e) {
        Some(c) => t.k(c as int) == SyntaxKind::DocComment,
        None => false,
    }
}

/// The comments in the first `i` children of a command, and what else is among them.
pub open spec fn documentation(t: &Tree, es: Seq<usize>, i: int) -> (Seq<Layout>, Seq<usize>)
    decreases i,
{
    if i <= 0 || i > es.len() {
        (Seq::empty(), Seq::empty())
    } else {
        let (docs, rest) = documentation(t, es, i - 1);
        let e = es[i - 1] as int;
        if t.node_is(e, SyntaxKind::DocComment) {
            (docs + comment_lines(t, t.kids(e), t.kids(e).len() as int), rest)
        } else {
            (docs, rest.push(es[i - 1]))
        }
    }
}

/// What is behind once a command with comments before it is.
pub open spec fn past_documented(cx: LowerCtx, e: int, s: Code, fuel: nat) -> Code
    decreases fuel, 19int, 0int,
{
    let (docs, rest) = documentation(cx.t, cx.t.kids(e), cx.t.kids(e).len() as int);
    let l = if fuel == 0 {
        Layout::Nil
    } else {
        code(cx, rest, false, (fuel - 1) as nat)
    };
    let after = s.with_comment_lines(docs, docs.len() as int);
    if l is Nil {
        after
    } else {
        after.with_piece(l)
    }
}

/// Whether the group at `i` is the body that hangs behind a call.
pub open spec fn hangs_behind(t: &Tree, es: Seq<usize>, i: int, s: Code, structural: bool) -> bool {
    let e = es[i] as int;
    t.k(e) == SyntaxKind::Group && s.atom.len() == 0 && s.parts.len() > 0 && !group_breaks(t, e) && multi_atom(t, e)
        && trailing(t, es, i, structural) && !group_before(t, es, i, structural) && !grouped_sibling(t, e)
}

/// The braces of the group, where all of it may stand on one line.
pub open spec fn inline_braces(parts: GroupParts) -> Option<Braces> {
    match parts {
        GroupParts::Parts { braces, forced } => if !forced && !forces_break(braces.body) {
            Some(braces)
        } else {
            None
        },
        GroupParts::Whole(_) => None,
    }
}

/// What is behind once a node is that has no layout of its own.
pub open spec fn past_plain(t: &Tree, es: Seq<usize>, i: int, s: Code, structural: bool, l: Layout) -> Code {
    let e = es[i] as int;
    let hang = t.k(e) == SyntaxKind::Group && s.atom.len() == 0;
    if glued_at(t, es, i, structural) {
        s.with_piece(l)
    } else if structural && t.k(e) == SyntaxKind::Command && s.atom.len() == 0 && s.parts.len() > 0 && trailing(
        t,
        es,
        i,
        structural,
    ) && any_node(t, t.kids(e), SyntaxKind::Group) {
        s.with_trailing_command(l)
    } else if !fallback_at(t, es, i, structural) && forces_break(l) {
        s.with_forced(l, hang)
    } else {
        s.with_soft(l, hang)
    }
}

/// Whether the conditional at `i` starts its line.
pub open spec fn leads(t: &Tree, es: Seq<usize>, i: int, s: Code, structural: bool) -> bool {
    !glued_at(t, es, i, structural) && s.at_start() && t.k(es[i] as int) == SyntaxKind::Command
}

/// Whether the conditional at `i` ends its line.
pub open spec fn closes(t: &Tree, es: Seq<usize>, i: int, s: Code, structural: bool) -> bool {
    !glued_at(t, es, i, structural) && !fallback_at(t, es, i, structural) && !s.at_start() && t.k(es[i] as int)
        == SyntaxKind::Command && trailing(t, es, i, structural)
}

/// What is known before the node at `i`.
pub open spec fn before_node(t: &Tree, es: Seq<usize>, i: int, s: Code, structural: bool) -> Code {
    if !glued_at(t, es, i, structural) && s.atom.len() > 0 && t.k(es[i] as int) == SyntaxKind::Group && takes_space(
        t,
        es[i] as int,
    ) {
        s.past_block().with_argument_gap()
    } else {
        s.past_block()
    }
}

/// What is behind once the node at `i` is, and whether that is a block by itself.
pub open spec fn past_node(cx: LowerCtx, es: Seq<usize>, i: int, s: Code, structural: bool, fuel: nat) -> (Code, bool)
    decreases fuel, 92int, 0int,
{
    let e = es[i] as int;
    let conditional = conditional_here(cx, e, fuel);
    if leads(cx.t, es, i, s, structural) && conditional is Some {
        (s.with_block(conditional->0), true)
    } else if closes(cx.t, es, i, s, structural) && conditional is Some {
        (s.with_trailing_conditional(node(cx, e, fuel), conditional->0), true)
    } else {
        let braces = inline_braces(group_parts(cx, e, SyntaxKind::LBrace, SyntaxKind::RBrace, fuel));
        if hangs_behind(cx.t, es, i, s, structural) && braces is Some {
            (s.with_trailing_group(braces->0), true)
        } else {
            (past_plain(cx.t, es, i, s, structural, node(cx, e, fuel)), false)
        }
    }
}

/// What is behind once the element at `i` is. A statement that ends behind it ends its line.
pub open spec fn past_element(cx: LowerCtx, es: Seq<usize>, i: int, s: Code, structural: bool, fuel: nat) -> Code
    decreases fuel, 93int, 0int,
{
    let e = es[i] as int;
    let (after, block) = if cx.t.tok(e) {
        (past_token(cx, es, i, s, structural), false)
    } else if is_documented(cx.t, e) {
        (past_documented(cx, e, s, fuel), false)
    } else {
        past_node(cx, es, i, before_node(cx.t, es, i, s, structural), structural, fuel)
    };
    if !block && structural && ends(cx.t, e) {
        after.committed()
    } else {
        after
    }
}

/// Whether the line of the element at `i` is packed.
pub open spec fn packs(t: &Tree, es: Seq<usize>, i: int, structural: bool) -> bool {
    glued_at(t, es, i, structural) || fallback_at(t, es, i, structural)
}

/// What is known before the element at `i`.
pub open spec fn before_element(t: &Tree, es: Seq<usize>, i: int, s: Code, structural: bool) -> Code {
    if packs(t, es, i, structural) {
        s.packed()
    } else {
        s
    }
}

/// The code once the elements from `i` on are behind.
pub open spec fn code_run(cx: LowerCtx, es: Seq<usize>, i: int, s: Code, structural: bool, fuel: nat) -> Code
    decreases fuel, 94int, es.len() - i,
{
    if i < 0 || i >= es.len() {
        s
    } else {
        proof {
            lemma_gap_end(cx.t, es, i);
        }
        let now = before_element(cx.t, es, i, s, structural);
        if cx.t.gap(es[i] as int) {
            code_run(
                cx,
                es,
                gap_end(cx.t, es, i),
                past_gap(cx.t, es, i, now, structural),
                structural,
                fuel,
            )
        } else {
            code_run(cx, es, i + 1, past_element(cx, es, i, now, structural, fuel), structural, fuel)
        }
    }
}

/// Code on its lines.
pub open spec fn code(cx: LowerCtx, es: Seq<usize>, structural: bool, fuel: nat) -> Layout
    decreases fuel, 95int, 0int,
{
    code_run(cx, es, 0, Code::start(), structural, fuel).finished()
}

fn take_gap(cx: LowerCtx, es: &Vec<usize>, i: usize, s: CodeBuilder, structural: bool) -> (r: (CodeBuilder, usize))
    requires
        in_tree(cx.t, es@),
        i < es@.len(),
        cx.t.gap(es@[i as int] as int),
        s.v().ok(),
    ensures
        r.0.v() == past_gap(cx.t, es@, i as int, s.v(), structural),
        r.0.v().ok(),
        r.1 == gap_end(cx.t, es@, i as int),
        i < r.1 <= es@.len(),
{
    let (newlines, end) = cx.consume_widened_gap_slice(es, i);
    if structural && i > 0 && cx.t.elems[es[i - 1]].facts.ends_statement {
        (s.with_boundary(newlines), end)
    } else {
        let bare = !structural && end < es.len() && !cx.t.is_node(es[end], SyntaxKind::Group) && !cx.t.is_node(
            es[end],
            SyntaxKind::Optional,
        ) && !cx.t.token_is(es[end], SyntaxKind::Comment);
        let glue = bare || is_glued_at(cx, es, end, structural);
        (s.with_gap(newlines, glue), end)
    }
}

fn take_token(cx: LowerCtx, es: &Vec<usize>, i: usize, s: CodeBuilder, structural: bool) -> (r: CodeBuilder)
    requires
        in_tree(cx.t, es@),
        i < es@.len(),
        s.v().ok(),
    ensures
        r.v() == past_token(cx, es@, i as int, s.v(), structural),
        r.v().ok(),
{
    assert(i < es.len());
    let e: usize = es[i];
    let kind = cx.t.kind(e);
    if kind == SyntaxKind::Tilde {
        let (_, next) = cx.consume_widened_gap_slice(es, i + 1);
        s.with_tie(cx.t.text(e), is_glued_at(cx, es, next, structural))
    } else if kind == SyntaxKind::Comment {
        s.with_comment(cx.t.text(e))
    } else if kind == SyntaxKind::Guard {
        s.with_guard(lower_loose_token(cx, e))
    } else {
        s.with_piece(lower_loose_token(cx, e))
    }
}

fn split_documentation(cx: LowerCtx, es: &Vec<usize>, Ghost(fuel): Ghost<nat>) -> (r: (IrList, Vec<usize>))
    requires
        cx.ok(),
        fits(cx.t, es@, fuel),
    ensures
        (r.0@, r.1@) == documentation(cx.t, es@, es@.len() as int),
        fits(cx.t, r.1@, fuel),
{
    let mut docs = IrList::new();
    let mut rest: Vec<usize> = Vec::new();
    let mut i: usize = 0;
    assert(rest@ =~= Seq::<usize>::empty());
    while i < es.len()
        invariant
            cx.ok(),
            fits(cx.t, es@, fuel),
            fits(cx.t, rest@, fuel),
            i <= es@.len(),
            (docs@, rest@) == documentation(cx.t, es@, i as int),
        decreases es@.len() - i,
    {
        let e: usize = es[i];
        assert(room(cx.t, es@[i as int] as int, fuel));
        if cx.t.is_node(e, SyntaxKind::DocComment) {
            let lines = cx.children(e);
            docs.extend(lower_comment_lines(cx, &lines));
        } else {
            rest.push(e);
        }
        i = i + 1;
    }
    (docs, rest)
}

fn take_documented(cx: LowerCtx, e: usize, s: CodeBuilder, Ghost(fuel): Ghost<nat>) -> (r: CodeBuilder)
    requires
        cx.ok(),
        room(cx.t, e as int, fuel),
        s.v().ok(),
    ensures
        r.v() == past_documented(cx, e as int, s.v(), fuel),
        r.v().ok(),
    decreases fuel, 19int, 0int,
{
    let ghost less = (fuel - 1) as nat;
    let es = cx.children(e);
    let (docs, rest) = split_documentation(cx, &es, Ghost(less));
    let after = s.with_comment_lines(&docs);
    let ir = lower_expl_code(cx, &rest, false, Ghost(less));
    if ir.is_nil() {
        after
    } else {
        after.with_piece(ir)
    }
}

fn take_plain(cx: LowerCtx, es: &Vec<usize>, i: usize, s: CodeBuilder, structural: bool, ir: Ir) -> (r: CodeBuilder)
    requires
        cx.ok(),
        in_tree(cx.t, es@),
        i < es@.len(),
        s.v().ok(),
        !s.v().after_block,
    ensures
        r.v() == past_plain(cx.t, es@, i as int, s.v(), structural, ir@),
        r.v().ok(),
{
    let e: usize = es[i];
    let kind = cx.t.kind(e);
    let hang = kind == SyntaxKind::Group && s.atom_is_empty();
    if is_glued_at(cx, es, i, structural) {
        return s.with_piece(ir);
    }
    if structural && kind == SyntaxKind::Command && s.atom_is_empty() && !s.parts_are_empty()
        && is_trailing_in_statement(cx, es, i, structural) {
        let inner = cx.children(e);
        if any_node_of(cx, &inner, SyntaxKind::Group) {
            return s.with_trailing_command(ir);
        }
    }
    let fallback = structural && cx.t.elems[e].facts.fallback;
    if !fallback && ir.contains_forced_break() {
        s.with_forced(ir, hang)
    } else {
        s.with_soft(ir, hang)
    }
}

fn may_hang_behind(cx: LowerCtx, es: &Vec<usize>, i: usize, s: &CodeBuilder, structural: bool) -> (r: bool)
    requires
        cx.ok(),
        in_tree(cx.t, es@),
        i < es@.len(),
    ensures
        r == hangs_behind(cx.t, es@, i as int, s.v(), structural),
{
    let e: usize = es[i];
    cx.t.kind(e) == SyntaxKind::Group && s.atom_is_empty() && !s.parts_are_empty() && !expl_group_forces_break(cx, e)
        && expl_group_body_is_multi_atom(cx, e) && is_trailing_in_statement(cx, es, i, structural)
        && !statement_has_preceding_group(cx, es, i, structural) && !head_command_has_grouped_sibling_arg(cx, e)
}

fn take_inline_braces(parts: ExplGroupPieces) -> (r: Option<BraceParts>)
    ensures
        r is Some == inline_braces(parts.v()) is Some,
        r matches Some(b) ==> inline_braces(parts.v()) == Some(b.v()),
{
    match parts {
        ExplGroupPieces::Pieces { braces, forced } => if !forced && !braces.body.contains_forced_break() {
            Some(braces)
        } else {
            None
        },
        ExplGroupPieces::Assembled(_) => None,
    }
}

fn take_inner_node(
    cx: LowerCtx,
    es: &Vec<usize>,
    i: usize,
    s: CodeBuilder,
    structural: bool,
    Ghost(fuel): Ghost<nat>,
) -> (r: (CodeBuilder, bool))
    requires
        cx.ok(),
        fits(cx.t, es@, fuel),
        i < es@.len(),
        s.v().ok(),
        !s.v().after_block,
    ensures
        (r.0.v(), r.1) == ({
            let e = es@[i as int] as int;
            let braces = inline_braces(group_parts(cx, e, SyntaxKind::LBrace, SyntaxKind::RBrace, fuel));
            if hangs_behind(cx.t, es@, i as int, s.v(), structural) && braces is Some {
                (s.v().with_trailing_group(braces->0), true)
            } else {
                (past_plain(cx.t, es@, i as int, s.v(), structural, node(cx, e, fuel)), false)
            }
        }),
        r.0.v().ok(),
    decreases fuel, 91int, 0int,
{
    let e: usize = es[i];
    assert(room(cx.t, es@[i as int] as int, fuel));
    if may_hang_behind(cx, es, i, &s, structural) {
        let parts = expl_group_pieces(cx, e, SyntaxKind::LBrace, SyntaxKind::RBrace, Ghost(fuel));
        match take_inline_braces(parts) {
            Some(braces) => {
                return (s.with_trailing_group(braces), true);
            },
            None => {},
        }
    }
    let ir = lower_node(cx, e, Ghost(fuel));
    (take_plain(cx, es, i, s, structural, ir), false)
}

fn take_node(
    cx: LowerCtx,
    es: &Vec<usize>,
    i: usize,
    s: CodeBuilder,
    structural: bool,
    Ghost(fuel): Ghost<nat>,
) -> (r: (CodeBuilder, bool))
    requires
        cx.ok(),
        fits(cx.t, es@, fuel),
        i < es@.len(),
        s.v().ok(),
        !s.v().after_block,
    ensures
        (r.0.v(), r.1) == past_node(cx, es@, i as int, s.v(), structural, fuel),
        r.0.v().ok(),
    decreases fuel, 92int, 0int,
{
    let e: usize = es[i];
    assert(room(cx.t, es@[i as int] as int, fuel));
    let glued = is_glued_at(cx, es, i, structural);
    let fallback = structural && cx.t.elems[e].facts.fallback;
    let at_start = s.parts_are_empty() && s.atom_is_empty();
    let is_command = cx.t.kind(e) == SyntaxKind::Command;
    if !glued && is_command && at_start {
        match expl_conditional_at(cx, e, Ghost(fuel)) {
            Some(ir) => {
                return (s.with_block(ir), true);
            },
            None => {},
        }
    } else if !glued && is_command && !fallback && is_trailing_in_statement(cx, es, i, structural) {
        match expl_conditional_at(cx, e, Ghost(fuel)) {
            Some(ir) => {
                let flat = lower_node(cx, e, Ghost(fuel));
                return (s.with_trailing_conditional(flat, ir), true);
            },
            None => {},
        }
    }
    take_inner_node(cx, es, i, s, structural, Ghost(fuel))
}

fn take_element(
    cx: LowerCtx,
    es: &Vec<usize>,
    i: usize,
    s: CodeBuilder,
    structural: bool,
    Ghost(fuel): Ghost<nat>,
) -> (r: CodeBuilder)
    requires
        cx.ok(),
        fits(cx.t, es@, fuel),
        i < es@.len(),
        s.v().ok(),
    ensures
        r.v() == past_element(cx, es@, i as int, s.v(), structural, fuel),
        r.v().ok(),
    decreases fuel, 93int, 0int,
{
    let e: usize = es[i];
    assert(room(cx.t, es@[i as int] as int, fuel));
    let (after, block) = if cx.t.is_token(e) {
        (take_token(cx, es, i, s, structural), false)
    } else if is_documented_command(cx, e) {
        (take_documented(cx, e, s, Ghost(fuel)), false)
    } else {
        let spaced = !is_glued_at(cx, es, i, structural) && !s.atom_is_empty() && cx.t.kind(e) == SyntaxKind::Group
            && expl_arg_takes_leading_space(cx, e);
        let now = prepare_node(s, spaced);
        take_node(cx, es, i, now, structural, Ghost(fuel))
    };
    if !block && structural && cx.t.elems[e].facts.ends_statement {
        after.commit_line()
    } else {
        after
    }
}

fn prepare_node(s: CodeBuilder, spaced: bool) -> (r: CodeBuilder)
    requires
        s.v().ok(),
    ensures
        r.v() == (if spaced {
            s.v().past_block().with_argument_gap()
        } else {
            s.v().past_block()
        }),
        r.v().ok(),
        !r.v().after_block,
{
    proof {
        reveal(Code::with_argument_gap);
        reveal(Code::flushed);
    }
    if spaced {
        s.past_block().with_argument_gap()
    } else {
        s.past_block()
    }
}

fn is_documented_command(cx: LowerCtx, e: usize) -> (r: bool)
    requires
        cx.ok(),
        e < cx.t.n(),
    ensures
        r == is_documented(cx.t, e as int),
{
    cx.t.is_node(e, SyntaxKind::Command) && match first_child_node(cx, e) {
        Some(c) => cx.t.kind(c) == SyntaxKind::DocComment,
        None => false,
    }
}

pub fn lower_expl_code(cx: LowerCtx, es: &Vec<usize>, structural: bool, Ghost(fuel): Ghost<nat>) -> (r: Ir)
    requires
        cx.ok(),
        fits(cx.t, es@, fuel),
    ensures
        r@ == code(cx, es@, structural, fuel),
    decreases fuel, 95int, 0int,
{
    let mut s = CodeBuilder::new();
    let ghost all = code_run(cx, es@, 0, Code::start(), structural, fuel);
    let mut i: usize = 0;
    while i < es.len()
        invariant
            cx.ok(),
            fits(cx.t, es@, fuel),
            i <= es@.len(),
            s.v().ok(),
            code_run(cx, es@, i as int, s.v(), structural, fuel) == all,
        decreases es@.len() - i,
    {
        let e: usize = es[i];
        if structural && (cx.t.elems[e].facts.fallback || cx.t.elems[e].facts.glued) {
            s = s.packed();
        }
        if cx.t.is_gap(e) {
            let (after, end) = take_gap(cx, es, i, s, structural);
            s = after;
            i = end;
        } else {
            s = take_element(cx, es, i, s, structural, Ghost(fuel));
            i = i + 1;
        }
    }
    s.finish()
}

} // verus!

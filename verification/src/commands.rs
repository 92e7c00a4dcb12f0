//! Commands and their arguments.

use vstd::prelude::*;

use crate::context::{fits, in_tree, part, room, tok_at, LowerCtx};
use crate::flatten::{
    alignment_cell_elements, cell_elements, close_kind, closer, declared_slot, delimiters, inner, is_arg, is_argument,
    open_kind, opener, slot_of, split_delimited,
};
use crate::gap::{
    classify_trivia, gap_end, gap_newlines, gap_of, lemma_gap_end, peel_back, peel_front, trim_leading_break,
    trim_trailing_break, trivia_layout,
};
use crate::groups::{lower_delimiter, token_layout};
use crate::ir::{
    concat, concat2, concat3, concat4, forces_break, group, indent, interleave, verbatim, Ir,
    IrList, Layout,
};
use crate::lower::{loose, lower_loose_token, lower_node, lower_stream, node, streamed};
use crate::math::{lower_math_argument_group, lower_source, math_argument_group, MathSpacing};
use crate::predicates::{
    body_ends_with_comment, command_has_math_arg, comment_ends, contains_indented_dtx_comment, has_indented_comment,
    has_math_arg,
};
use crate::prose::{reflow_elements_checked, reflowed, ReflowKind};
use crate::segments::{
    back_padding, front_padding, is_segment_separator, lower_segmented_group, peel_leading_padding, peel_trailing_padding,
    segment_delimited_body, segmented_group, segments, separates,
};
use crate::signatures::{ArgumentDomain, CommandSig, ContentKind};
use crate::syntax::{SyntaxKind, Tree};

verus! {

// ---- statements ----------------------------------------------------------------------------

/// The first child from `i` on that is a node.
pub open spec fn first_node_from(t: &Tree, es: Seq<usize>, i: int) -> Option<usize>
    decreases es.len() - i,
{
    if i < 0 || i >= es.len() {
        None
    } else if t.tok(es[i] as int) {
        first_node_from(t, es, i + 1)
    } else {
        Some(es[i])
    }
}

/// The first child that is a node.
pub open spec fn first_node(t: &Tree, n: int) -> Option<usize> {
    first_node_from(t, t.kids(n), 0)
}

pub fn first_child_node(cx: LowerCtx, n: usize) -> (r: Option<usize>)
    requires
        cx.ok(),
        n < cx.t.n(),
    ensures
        r == first_node(cx.t, n as int),
        r matches Some(c) ==> c < cx.t.n() && !cx.t.tok(c as int) && forall|fuel: nat|
            #[trigger] room(cx.t, n as int, fuel) ==> fuel > 0 && room(cx.t, c as int, (fuel - 1) as nat),
{
    let es = cx.children(n);
    let mut i: usize = 0;
    while i < es.len()
        invariant
            in_tree(cx.t, es@),
            es@ == cx.t.kids(n as int),
            forall|fuel: nat| #[trigger] room(cx.t, n as int, fuel) ==> fuel > 0 && fits(cx.t, es@, (fuel - 1) as nat),
            first_node_from(cx.t, es@, i as int) == first_node_from(cx.t, es@, 0),
        decreases es@.len() - i,
    {
        if !cx.t.is_token(es[i]) {
            assert forall|fuel: nat| #[trigger] room(cx.t, n as int, fuel) implies fuel > 0 && room(
                cx.t,
                es@[i as int] as int,
                (fuel - 1) as nat,
            ) by {
                assert(fits(cx.t, es@, (fuel - 1) as nat));
            }
            return Some(es[i]);
        }
        i = i + 1;
    }
    None
}

/// The comment that a statement starts with and that is put before it.
pub open spec fn statement_comment(cx: LowerCtx, n: int) -> Option<usize> {
    match first_node(cx.t, n) {
        Some(c) => if cx.off(c as int) || (cx.is_dtx && has_indented_comment(cx.t, c as int)) {
            None
        } else {
            match first_node(cx.t, c as int) {
                Some(d) => if cx.t.k(d as int) == SyntaxKind::DocComment && cx.t.from(d as int) == cx.t.from(n)
                    && !cx.off(d as int) {
                    Some(d)
                } else {
                    None
                },
                None => None,
            }
        },
        None => None,
    }
}

pub fn statement_leading_comment(cx: LowerCtx, n: usize) -> (r: Option<usize>)
    requires
        cx.ok(),
        n < cx.t.n(),
    ensures
        r == statement_comment(cx, n as int),
        r matches Some(d) ==> d < cx.t.n(),
{
    match first_child_node(cx, n) {
        Some(c) => {
            if cx.is_suppressed(c) || (cx.is_dtx && contains_indented_dtx_comment(cx, c)) {
                return None;
            }
            match first_child_node(cx, c) {
                Some(d) => if cx.t.kind(d) == SyntaxKind::DocComment && cx.t.span(d).start == cx.t.span(n).start
                    && !cx.is_suppressed(d) {
                    Some(d)
                } else {
                    None
                },
                None => None,
            }
        },
        None => None,
    }
}

/// How many elements make up the commands at the start of a statement that each end in a
/// comment. `saw` holds behind a command, and `end` are behind already.
pub open spec fn comment_prefix(cx: LowerCtx, es: Seq<usize>, i: int, saw: bool, end: int) -> int
    decreases es.len() - i,
{
    if i < 0 || i >= es.len() {
        end
    } else {
        let e = es[i] as int;
        if cx.t.tok_is(e, SyntaxKind::Whitespace) {
            comment_prefix(cx, es, i + 1, saw, end)
        } else if cx.t.tok_is(e, SyntaxKind::Newline) {
            if saw {
                end
            } else {
                comment_prefix(cx, es, i + 1, saw, end)
            }
        } else if cx.t.node_is(e, SyntaxKind::Command) && !cx.off(e) && !(cx.is_dtx && has_indented_comment(cx.t, e)) {
            comment_prefix(cx, es, i + 1, true, end)
        } else if cx.t.tok_is(e, SyntaxKind::Comment) && saw && !cx.off(e) {
            comment_prefix(cx, es, i + 1, false, i + 1)
        } else {
            end
        }
    }
}

pub fn statement_leading_command_comment_prefix(cx: LowerCtx, es: &Vec<usize>) -> (r: usize)
    requires
        cx.ok(),
        in_tree(cx.t, es@),
    ensures
        r == comment_prefix(cx, es@, 0, false, 0),
        r <= es@.len(),
{
    let mut end: usize = 0;
    let mut saw = false;
    let mut i: usize = 0;
    while i < es.len()
        invariant
            cx.ok(),
            in_tree(cx.t, es@),
            i <= es@.len(),
            end <= es@.len(),
            comment_prefix(cx, es@, i as int, saw, end as int) == comment_prefix(cx, es@, 0, false, 0),
        decreases es@.len() - i,
    {
        let e: usize = es[i];
        if cx.t.token_is(e, SyntaxKind::Whitespace) {
        } else if cx.t.token_is(e, SyntaxKind::Newline) {
            if saw {
                return end;
            }
        } else if cx.t.is_node(e, SyntaxKind::Command) && !cx.is_suppressed(e) && !(cx.is_dtx
            && contains_indented_dtx_comment(cx, e)) {
            saw = true;
        } else if cx.t.token_is(e, SyntaxKind::Comment) && saw && !cx.is_suppressed(e) {
            end = i + 1;
            saw = false;
        } else {
            return end;
        }
        i = i + 1;
    }
    end
}

/// The comments of a list before `i`, as they stand.
pub open spec fn comment_lines(t: &Tree, es: Seq<usize>, i: int) -> Seq<Layout>
    decreases i,
{
    if i <= 0 || i > es.len() {
        Seq::empty()
    } else if t.tok_is(es[i - 1] as int, SyntaxKind::Comment) {
        comment_lines(t, es, i - 1).push(verbatim(t.txt(es[i - 1] as int)))
    } else {
        comment_lines(t, es, i - 1)
    }
}

pub fn lower_comment_lines(cx: LowerCtx, es: &Vec<usize>) -> (r: IrList)
    requires
        in_tree(cx.t, es@),
    ensures
        r@ == comment_lines(cx.t, es@, es@.len() as int),
{
    let mut out = IrList::new();
    let mut i: usize = 0;
    while i < es.len()
        invariant
            in_tree(cx.t, es@),
            i <= es@.len(),
            out@ == comment_lines(cx.t, es@, i as int),
        decreases es@.len() - i,
    {
        if cx.t.token_is(es[i], SyntaxKind::Comment) {
            out.push(Ir::verbatim(cx.t.text(es[i])));
        }
        i = i + 1;
    }
    out
}

impl<'a> LowerCtx<'a> {
    /// The context for a statement whose comment stands before it.
    pub open spec fn omitting(self, comment: Option<usize>) -> LowerCtx<'a> {
        match comment {
            Some(c) => LowerCtx { omitted: Some(self.t.elems@[c as int].span), ..self },
            None => self,
        }
    }

    pub fn omitting_comment(self, comment: Option<usize>) -> (r: LowerCtx<'a>)
        requires
            self.ok(),
            comment matches Some(c) ==> c < self.t.n(),
        ensures
            r == self.omitting(comment),
            r.ok(),
            r.t == self.t,
    {
        proof {
            reveal(LowerCtx::ok);
        }
        match comment {
            Some(c) => LowerCtx { omitted: Some(self.t.span(c)), ..self },
            None => self,
        }
    }
}

/// The comment before a statement, one of its lines to a line.
pub open spec fn comment_block(t: &Tree, comment: Option<usize>) -> Seq<Layout> {
    match comment {
        Some(c) => seq![
            concat(interleave(Layout::HardLine, comment_lines(t, t.kids(c as int), t.kids(c as int).len() as int))),
        ],
        None => Seq::empty(),
    }
}

/// A statement: what it starts with on lines of its own, and the rest indented.
pub open spec fn statement(cx: LowerCtx, n: int, fuel: nat) -> Layout
    decreases fuel, 20int, 0int,
{
    if fuel == 0 {
        Layout::Nil
    } else {
        let less = (fuel - 1) as nat;
        let comment = statement_comment(cx, n);
        let body = cx.omitting(comment);
        let es = cx.t.kids(n);
        let cut = comment_prefix(body, es, 0, false, 0);
        let kind = ReflowKind::StatementInterior;
        if comment is None && cut == 0 {
            indent(reflowed(cx, es, kind, less).0)
        } else {
            let before = comment_block(cx.t, comment);
            let lead = if cut > 0 {
                (if before.len() > 0 {
                    before.push(Layout::HardLine)
                } else {
                    before
                }).push(reflowed(body, es.subrange(0, cut), kind, less).0)
            } else {
                before
            };
            concat3(
                concat(lead),
                Layout::HardLine,
                indent(reflowed(body, es.subrange(cut, es.len() as int), kind, less).0),
            )
        }
    }
}

pub fn lower_statement(cx: LowerCtx, n: usize, Ghost(fuel): Ghost<nat>) -> (r: Ir)
    requires
        cx.ok(),
        room(cx.t, n as int, fuel),
    ensures
        r@ == statement(cx, n as int, fuel),
    decreases fuel, 20int, 0int,
{
    let ghost less = (fuel - 1) as nat;
    let comment = statement_leading_comment(cx, n);
    let body = cx.omitting_comment(comment);
    let es = cx.children(n);
    let cut: usize = statement_leading_command_comment_prefix(body, &es);
    let kind = ReflowKind::StatementInterior;
    if comment.is_none() && cut == 0 {
        return Ir::indent(reflow_elements_checked(cx, &es, kind, Ghost(less)).0);
    }
    let mut lead = IrList::new();
    match comment {
        Some(c) => {
            let lines = lower_comment_lines(cx, &cx.children(c));
            lead.push(Ir::join(Ir::HardLine, lines));
        },
        None => {},
    }
    assert(lead@ =~= comment_block(cx.t, comment));
    if cut > 0 {
        if !lead.is_empty() {
            lead.push(Ir::HardLine);
        }
        let first = part(&es, 0, cut);
        lead.push(reflow_elements_checked(body, &first, kind, Ghost(less)).0);
    }
    let rest = part(&es, cut, es.len());
    let tail = reflow_elements_checked(body, &rest, kind, Ghost(less)).0;
    Ir::concat3(Ir::concat(lead), Ir::HardLine, Ir::indent(tail))
}

// ---- a list of tokens in running text ------------------------------------------------------

/// The finished atoms, and the pieces of the one in progress, once the parts from `k` on are
/// behind. A separator ends an atom.
pub open spec fn cut_parts(parts: Seq<Layout>, k: int, done: Seq<Layout>, current: Seq<Layout>) -> (
    Seq<Layout>,
    Seq<Layout>,
)
    decreases parts.len() - k,
{
    if k < 0 || k >= parts.len() {
        (done, current)
    } else if separates(parts[k]) {
        cut_parts(parts, k + 1, done.push(concat(current)), Seq::empty())
    } else {
        cut_parts(parts, k + 1, done, current.push(parts[k]))
    }
}

/// What is known of a command whose tokens may be put on lines.
pub struct TokenAtoms {
    pub done: Seq<Layout>,
    pub current: Seq<Layout>,
    /// Whether one of its arguments was cut.
    pub found: bool,
}

/// What is known once the argument `e` is behind, or nothing where it is not cut.
pub open spec fn with_token_list(cx: LowerCtx, e: int, s: TokenAtoms, fuel: nat) -> Option<TokenAtoms>
    decreases fuel, 18int, 0int,
{
    match segments(cx, e, open_kind(cx.t, e), close_kind(cx.t, e), true, fuel) {
        Some(body) => if body.splits == 0 {
            None
        } else {
            let parts = back_padding(front_padding(body.parts, Layout::Nil).1, Layout::Nil).1;
            let (done, current) = cut_parts(parts, 0, s.done, s.current.push(body.open));
            Some(TokenAtoms { done, current: current.push(body.close), found: true })
        },
        None => None,
    }
}

/// Whether the element fills an argument of tokens.
pub open spec fn is_token_list(t: &Tree, sig: CommandSig, e: int) -> bool {
    is_arg(t, e) && match slot_of(t, sig.args@, e) {
        Some(spec) => spec.content == ContentKind::TokenList,
        None => false,
    }
}

/// What is known once the elements from `i` on are behind, or nothing.
pub open spec fn token_atoms(cx: LowerCtx, sig: CommandSig, es: Seq<usize>, i: int, s: TokenAtoms, fuel: nat) -> Option<
    TokenAtoms,
>
    decreases fuel, 70int, es.len() - i,
{
    if i < 0 || i >= es.len() {
        Some(s)
    } else {
        let e = es[i] as int;
        if is_token_list(cx.t, sig, e) {
            match with_token_list(cx, e, s, fuel) {
                Some(next) => token_atoms(cx, sig, es, i + 1, next, fuel),
                None => None,
            }
        } else {
            let l = if cx.t.tok(e) {
                loose(cx, e)
            } else {
                node(cx, e, fuel)
            };
            token_atoms(cx, sig, es, i + 1, TokenAtoms { current: s.current.push(l), ..s }, fuel)
        }
    }
}

/// The atoms of a command whose tokens may be put on lines, or nothing.
pub open spec fn inline_atoms(cx: LowerCtx, n: int, fuel: nat) -> Option<Seq<Layout>>
    decreases fuel, 21int, 0int,
{
    match cx.sig(n) {
        Some(sig) => if fuel == 0 {
            None
        } else {
            match token_atoms(
                cx,
                sig,
                cell_elements(cx, cx.t.kids(n)),
                0,
                TokenAtoms { done: Seq::empty(), current: Seq::empty(), found: false },
                (fuel - 1) as nat,
            ) {
                Some(s) => if s.found {
                    Some(s.done.push(concat(s.current)))
                } else {
                    None
                },
                None => None,
            }
        },
        None => None,
    }
}

struct TokenState {
    done: IrList,
    current: IrList,
    found: bool,
}

impl TokenState {
    spec fn v(&self) -> TokenAtoms {
        TokenAtoms { done: self.done@, current: self.current@, found: self.found }
    }
}

fn take_token_list(cx: LowerCtx, e: usize, s: TokenState, Ghost(fuel): Ghost<nat>) -> (r: Option<TokenState>)
    requires
        cx.ok(),
        room(cx.t, e as int, fuel),
    ensures
        r is Some == with_token_list(cx, e as int, s.v(), fuel) is Some,
        r matches Some(next) ==> with_token_list(cx, e as int, s.v(), fuel) == Some(next.v()),
    decreases fuel, 18int, 0int,
{
    let (open, close) = delimiters(cx, e);
    match segment_delimited_body(cx, e, open, close, true, Ghost(fuel)) {
        Some(body) => {
            if body.splits == 0 {
                return None;
            }
            let mut parts = body.parts;
            let _ = peel_leading_padding(&mut parts);
            let _ = peel_trailing_padding(&mut parts);
            let mut done = s.done;
            let mut current = s.current;
            current.push(body.open);
            let ghost done0 = done@;
            let ghost current0 = current@;
            let mut k: usize = 0;
            while k < parts.len()
                invariant
                    k <= parts@.len(),
                    cut_parts(parts@, k as int, done@, current@) == cut_parts(parts@, 0, done0, current0),
                decreases parts@.len() - k,
            {
                let piece = parts.at(k);
                if is_segment_separator(&piece) {
                    let pieces = current.take();
                    done.push(Ir::concat(pieces));
                } else {
                    current.push(piece);
                }
                k = k + 1;
            }
            current.push(body.close);
            Some(TokenState { done, current, found: true })
        },
        None => None,
    }
}

pub fn inline_token_list_atoms(cx: LowerCtx, n: usize, Ghost(fuel): Ghost<nat>) -> (r: Option<IrList>)
    requires
        cx.ok(),
        room(cx.t, n as int, fuel),
    ensures
        r is Some == inline_atoms(cx, n as int, fuel) is Some,
        r matches Some(list) ==> inline_atoms(cx, n as int, fuel) == Some(list@),
    decreases fuel, 21int, 0int,
{
    let sig = match cx.command_sig(n) {
        Some(sig) => sig,
        None => {
            return None;
        },
    };
    let ghost less = (fuel - 1) as nat;
    let es = alignment_cell_elements(cx, cx.children(n), Ghost(less));
    let mut s = TokenState { done: IrList::new(), current: IrList::new(), found: false };
    let ghost start = s.v();
    assert(start == (TokenAtoms { done: Seq::empty(), current: Seq::empty(), found: false }));
    let mut i: usize = 0;
    while i < es.len()
        invariant
            cx.ok(),
            fuel > 0,
            less == fuel - 1,
            cx.sig(n as int) == Some(*sig),
            es@ == cell_elements(cx, cx.t.kids(n as int)),
            fits(cx.t, es@, less),
            i <= es@.len(),
            start == (TokenAtoms { done: Seq::empty(), current: Seq::empty(), found: false }),
            token_atoms(cx, *sig, es@, i as int, s.v(), less) == token_atoms(cx, *sig, es@, 0, start, less),
        decreases es@.len() - i,
    {
        let e: usize = es[i];
        assert(room(cx.t, es@[i as int] as int, less));
        let listed = is_argument(cx, e) && match declared_slot(cx, &sig.args, e) {
            Some(spec) => spec.content == ContentKind::TokenList,
            None => false,
        };
        if listed {
            match take_token_list(cx, e, s, Ghost(less)) {
                Some(next) => {
                    s = next;
                },
                None => {
                    return None;
                },
            }
        } else {
            let ir = if cx.t.is_token(e) {
                lower_loose_token(cx, e)
            } else {
                lower_node(cx, e, Ghost(less))
            };
            s.current.push(ir);
        }
        i = i + 1;
    }
    if !s.found {
        return None;
    }
    let mut done = s.done;
    done.push(Ir::concat(s.current));
    Some(done)
}

// ---- arguments -----------------------------------------------------------------------------

/// An argument of running text. A comment behind the opening delimiter stays there.
pub open spec fn prose_group(cx: LowerCtx, n: int, open: SyntaxKind, close: SyntaxKind, fuel: nat) -> Layout
    decreases fuel, 23int, 0int,
{
    let t = cx.t;
    let es = cell_elements(cx, t.kids(n));
    let all = inner(t, es, open, close, es.len() as int);
    let open_layout = token_layout(t, opener(t, es, open, 0));
    let close_layout = token_layout(t, closer(t, es, open, close, es.len() as int));
    let commented = tok_at(t, all, 0, SyntaxKind::Comment);
    let opened = if commented {
        concat2(open_layout, verbatim(t.txt(all[0] as int)))
    } else {
        open_layout
    };
    let rest = if commented {
        all.subrange(1, all.len() as int)
    } else {
        all
    };
    let body = if fuel == 0 {
        Layout::Nil
    } else {
        reflowed(cx, rest, ReflowKind::ProseArg, (fuel - 1) as nat).0
    };
    if body is Nil {
        if commented {
            concat3(opened, Layout::HardLine, close_layout)
        } else {
            concat2(opened, close_layout)
        }
    } else {
        let edge = if commented || comment_ends(t, n, close, t.end(n) - 1) {
            Layout::HardLine
        } else {
            Layout::SoftLine
        };
        group(concat4(opened, indent(concat2(edge, body)), edge, close_layout))
    }
}

pub fn lower_prose_group(cx: LowerCtx, n: usize, open: SyntaxKind, close: SyntaxKind, Ghost(fuel): Ghost<nat>) -> (r: Ir)
    requires
        cx.ok(),
        room(cx.t, n as int, fuel),
    ensures
        r@ == prose_group(cx, n as int, open, close, fuel),
    decreases fuel, 23int, 0int,
{
    let ghost less = (fuel - 1) as nat;
    let es = alignment_cell_elements(cx, cx.children(n), Ghost(less));
    let parts = split_delimited(cx, &es, open, close, Ghost(less));
    let all = parts.body;
    let open_ir = lower_delimiter(cx, parts.open);
    let close_ir = lower_delimiter(cx, parts.close);
    let commented = cx.token_at(&all, 0, SyntaxKind::Comment);
    let opened = if commented {
        Ir::concat2(open_ir, Ir::verbatim(cx.t.text(all[0])))
    } else {
        open_ir
    };
    let rest = if commented {
        part(&all, 1, all.len())
    } else {
        all
    };
    let trailing = body_ends_with_comment(cx, n, close);
    let body = reflow_elements_checked(cx, &rest, ReflowKind::ProseArg, Ghost(less)).0;
    if body.is_nil() {
        if commented {
            Ir::concat3(opened, Ir::HardLine, close_ir)
        } else {
            Ir::concat2(opened, close_ir)
        }
    } else if commented || trailing {
        Ir::group(Ir::concat4(opened, Ir::indent(Ir::concat2(Ir::HardLine, body)), Ir::HardLine, close_ir))
    } else {
        Ir::group(Ir::concat4(opened, Ir::indent(Ir::concat2(Ir::SoftLine, body)), Ir::SoftLine, close_ir))
    }
}

/// What is known of an argument that is put on one line.
pub struct OneLine {
    pub open: Layout,
    pub close: Layout,
    pub body: Seq<Layout>,
}

/// What is known once the elements from `i` on are behind, or nothing where they do not fit on
/// one line.
pub open spec fn one_line(
    cx: LowerCtx,
    es: Seq<usize>,
    i: int,
    s: OneLine,
    open: SyntaxKind,
    close: SyntaxKind,
    fuel: nat,
) -> Option<OneLine>
    decreases fuel, 70int, es.len() - i,
{
    if i < 0 || i >= es.len() {
        Some(s)
    } else {
        proof {
            lemma_gap_end(cx.t, es, i);
        }
        let t = cx.t;
        let e = es[i] as int;
        if t.tok_is(e, open) && s.open is Nil {
            one_line(cx, es, i + 1, OneLine { open: verbatim(t.txt(e)), ..s }, open, close, fuel)
        } else if t.tok_is(e, close) {
            one_line(cx, es, i + 1, OneLine { close: verbatim(t.txt(e)), ..s }, open, close, fuel)
        } else if t.gap(e) {
            let gap = gap_of(t, es, i);
            if gap is Blank {
                None
            } else {
                one_line(
                    cx,
                    es,
                    gap_end(t, es, i),
                    OneLine { body: s.body.push(verbatim(gap.flat())), ..s },
                    open,
                    close,
                    fuel,
                )
            }
        } else if t.tok_is(e, SyntaxKind::Comment) {
            None
        } else if t.tok(e) {
            one_line(cx, es, i + 1, OneLine { body: s.body.push(verbatim(t.txt(e))), ..s }, open, close, fuel)
        } else {
            let l = node(cx, e, fuel);
            if forces_break(l) {
                None
            } else {
                one_line(cx, es, i + 1, OneLine { body: s.body.push(l), ..s }, open, close, fuel)
            }
        }
    }
}

/// An argument on one line, without the white space at both ends. Nothing where it does not fit
/// on one.
pub open spec fn collapsed_group(cx: LowerCtx, n: int, open: SyntaxKind, close: SyntaxKind, fuel: nat) -> Option<Layout>
    decreases fuel, 24int, 0int,
{
    if fuel == 0 {
        None
    } else {
        match one_line(
            cx,
            cx.t.kids(n),
            0,
            OneLine { open: Layout::Nil, close: Layout::Nil, body: Seq::empty() },
            open,
            close,
            (fuel - 1) as nat,
        ) {
            Some(s) => Some(concat3(s.open, peel_back(peel_front(concat(s.body)).1).1, s.close)),
            None => None,
        }
    }
}

pub fn collapse_arg_group(cx: LowerCtx, n: usize, open: SyntaxKind, close: SyntaxKind, Ghost(fuel): Ghost<nat>) -> (r:
    Option<Ir>)
    requires
        cx.ok(),
        room(cx.t, n as int, fuel),
    ensures
        r is Some == collapsed_group(cx, n as int, open, close, fuel) is Some,
        r matches Some(ir) ==> collapsed_group(cx, n as int, open, close, fuel) == Some(ir@),
    decreases fuel, 24int, 0int,
{
    let ghost less = (fuel - 1) as nat;
    let es = cx.children(n);
    let mut open_ir = Ir::Nil;
    let mut close_ir = Ir::Nil;
    let mut body = IrList::new();
    let ghost start = OneLine { open: Layout::Nil, close: Layout::Nil, body: Seq::empty() };
    let mut i: usize = 0;
    while i < es.len()
        invariant
            cx.ok(),
            fuel > 0,
            less == fuel - 1,
            es@ == cx.t.kids(n as int),
            fits(cx.t, es@, less),
            i <= es@.len(),
            start == (OneLine { open: Layout::Nil, close: Layout::Nil, body: Seq::empty() }),
            one_line(
                cx,
                es@,
                i as int,
                OneLine { open: open_ir@, close: close_ir@, body: body@ },
                open,
                close,
                less,
            ) == one_line(cx, es@, 0, start, open, close, less),
        decreases es@.len() - i,
    {
        let e: usize = es[i];
        assert(room(cx.t, es@[i as int] as int, less));
        if cx.t.token_is(e, open) && open_ir.is_nil() {
            open_ir = Ir::verbatim(cx.t.text(e));
            i = i + 1;
        } else if cx.t.token_is(e, close) {
            close_ir = Ir::verbatim(cx.t.text(e));
            i = i + 1;
        } else if cx.t.is_gap(e) {
            let (gap, end) = cx.consume_gap(&es, i);
            if gap.is_blank() {
                return None;
            }
            body.push(Ir::verbatim(gap.flat()));
            i = end;
        } else if cx.t.token_is(e, SyntaxKind::Comment) {
            return None;
        } else if cx.t.is_token(e) {
            body.push(Ir::verbatim(cx.t.text(e)));
            i = i + 1;
        } else {
            let ir = lower_node(cx, e, Ghost(less));
            if ir.contains_forced_break() {
                return None;
            }
            body.push(ir);
            i = i + 1;
        }
    }
    let whole = trim_trailing_break(&trim_leading_break(&Ir::concat(body)));
    Some(Ir::concat3(open_ir, whole, close_ir))
}

// ---- a whole command -----------------------------------------------------------------------

/// An argument of a command, laid out by its content.
pub open spec fn argument(cx: LowerCtx, sig: CommandSig, e: int, spacing: MathSpacing, fuel: nat) -> Layout
    decreases fuel, 51int, 0int,
{
    let slot = slot_of(cx.t, sig.args@, e);
    let (open, close) = (open_kind(cx.t, e), close_kind(cx.t, e));
    if has_math_arg(Some(sig)) {
        match slot {
            Some(spec) => if spec.domain == ArgumentDomain::Math {
                math_argument_group(cx, e, spacing, fuel)
            } else {
                verbatim(cx.t.src(e))
            },
            None => verbatim(cx.t.src(e)),
        }
    } else {
        match slot {
            Some(spec) => match spec.content {
                ContentKind::Prose => prose_group(cx, e, open, close, fuel),
                ContentKind::TokenList => match collapsed_group(cx, e, open, close, fuel) {
                    Some(l) => l,
                    None => node(cx, e, fuel),
                },
                ContentKind::Keyval => match segmented_group(cx, e, open, close, true, fuel) {
                    Some(l) => l,
                    None => node(cx, e, fuel),
                },
                ContentKind::Opaque => node(cx, e, fuel),
            },
            None => node(cx, e, fuel),
        }
    }
}

fn lower_argument(cx: LowerCtx, sig: &CommandSig, math: bool, e: usize, spacing: MathSpacing, Ghost(fuel): Ghost<nat>) -> (r: Ir)
    requires
        cx.ok(),
        room(cx.t, e as int, fuel),
        math == has_math_arg(Some(*sig)),
    ensures
        r@ == argument(cx, *sig, e as int, spacing, fuel),
    decreases fuel, 51int, 0int,
{
    let slot = declared_slot(cx, &sig.args, e);
    let (open, close) = delimiters(cx, e);
    if math {
        match slot {
            Some(spec) => if spec.domain == ArgumentDomain::Math {
                lower_math_argument_group(cx, e, spacing, Ghost(fuel))
            } else {
                lower_source(cx, e)
            },
            None => lower_source(cx, e),
        }
    } else {
        match slot {
            Some(spec) => match spec.content {
                ContentKind::Prose => lower_prose_group(cx, e, open, close, Ghost(fuel)),
                ContentKind::TokenList => match collapse_arg_group(cx, e, open, close, Ghost(fuel)) {
                    Some(ir) => ir,
                    None => lower_node(cx, e, Ghost(fuel)),
                },
                ContentKind::Keyval => match lower_segmented_group(cx, e, open, close, true, Ghost(fuel)) {
                    Some(ir) => ir,
                    None => lower_node(cx, e, Ghost(fuel)),
                },
                ContentKind::Opaque => lower_node(cx, e, Ghost(fuel)),
            },
            None => lower_node(cx, e, Ghost(fuel)),
        }
    }
}

/// The elements of a command from `i` on.
pub open spec fn command_parts(
    cx: LowerCtx,
    sig: CommandSig,
    es: Seq<usize>,
    i: int,
    spacing: MathSpacing,
    fuel: nat,
) -> Seq<Layout>
    decreases fuel, 72int, es.len() - i,
{
    if i < 0 || i >= es.len() {
        Seq::empty()
    } else {
        proof {
            lemma_gap_end(cx.t, es, i);
        }
        let t = cx.t;
        let e = es[i] as int;
        let math = has_math_arg(Some(sig));
        if is_arg(t, e) {
            seq![argument(cx, sig, e, spacing, fuel)] + command_parts(cx, sig, es, i + 1, spacing, fuel)
        } else if !t.tok(e) {
            seq![
                if math {
                    verbatim(t.src(e))
                } else {
                    node(cx, e, fuel)
                },
            ] + command_parts(cx, sig, es, i + 1, spacing, fuel)
        } else if t.k(e) == SyntaxKind::Verb {
            seq![loose(cx, e)] + command_parts(cx, sig, es, i + 1, spacing, fuel)
        } else if math {
            seq![verbatim(t.txt(e))] + command_parts(cx, sig, es, i + 1, spacing, fuel)
        } else if t.gap(e) {
            seq![trivia_layout(gap_of(t, es, i), gap_newlines(t, es, i), cx.in_cell)] + command_parts(
                cx,
                sig,
                es,
                gap_end(t, es, i),
                spacing,
                fuel,
            )
        } else {
            seq![loose(cx, e)] + command_parts(cx, sig, es, i + 1, spacing, fuel)
        }
    }
}

/// A command, with its math spaced as `spacing` says. One that nothing is known of keeps its
/// lines.
pub open spec fn command_spaced(cx: LowerCtx, n: int, spacing: MathSpacing, fuel: nat) -> Layout
    decreases fuel, 22int, 0int,
{
    if fuel == 0 {
        Layout::Nil
    } else {
        match cx.sig(n) {
            Some(sig) => concat(
                command_parts(cx, sig, cell_elements(cx, cx.t.kids(n)), 0, spacing, (fuel - 1) as nat),
            ),
            None => streamed(cx, cx.t.kids(n), (fuel - 1) as nat),
        }
    }
}

pub fn lower_command_with_math_spacing(cx: LowerCtx, n: usize, spacing: MathSpacing, Ghost(fuel): Ghost<nat>) -> (r: Ir)
    requires
        cx.ok(),
        room(cx.t, n as int, fuel),
    ensures
        r@ == command_spaced(cx, n as int, spacing, fuel),
    decreases fuel, 22int, 0int,
{
    let ghost less = (fuel - 1) as nat;
    let kids = cx.children(n);
    let sig = match cx.command_sig(n) {
        Some(sig) => sig,
        None => {
            return lower_stream(cx, &kids, Ghost(less));
        },
    };
    let math = command_has_math_arg(cx, n);
    let es = alignment_cell_elements(cx, kids, Ghost(less));
    let mut out = IrList::new();
    let ghost all = command_parts(cx, *sig, es@, 0, spacing, less);
    assert(out@ + all =~= all);
    let mut i: usize = 0;
    while i < es.len()
        invariant
            cx.ok(),
            fuel > 0,
            less == fuel - 1,
            math == has_math_arg(Some(*sig)),
            fits(cx.t, es@, less),
            i <= es@.len(),
            out@ + command_parts(cx, *sig, es@, i as int, spacing, less) == all,
        decreases es@.len() - i,
    {
        let e: usize = es[i];
        assert(room(cx.t, es@[i as int] as int, less));
        let ghost before = out@;
        let ghost start = i as int;
        let mut next: usize = i + 1;
        let ir = if is_argument(cx, e) {
            lower_argument(cx, sig, math, e, spacing, Ghost(less))
        } else if !cx.t.is_token(e) {
            if math {
                lower_source(cx, e)
            } else {
                lower_node(cx, e, Ghost(less))
            }
        } else if cx.t.kind(e) == SyntaxKind::Verb {
            lower_loose_token(cx, e)
        } else if math {
            Ir::verbatim(cx.t.text(e))
        } else if cx.t.is_gap(e) {
            let (gap, end) = cx.consume_gap_widened(&es, i);
            next = end;
            classify_trivia(gap, cx.in_cell)
        } else {
            lower_loose_token(cx, e)
        };
        out.push(ir);
        i = next;
        assert(out@ + command_parts(cx, *sig, es@, i as int, spacing, less) =~= before + command_parts(
            cx,
            *sig,
            es@,
            start,
            spacing,
            less,
        ));
    }
    assert(out@ + command_parts(cx, *sig, es@, es@.len() as int, spacing, less) =~= out@);
    Ir::concat(out)
}

/// A command.
pub open spec fn command(cx: LowerCtx, n: int, fuel: nat) -> Layout
    decreases fuel, 25int, 0int,
{
    command_spaced(cx, n, MathSpacing::Normal, fuel)
}

pub fn lower_command(cx: LowerCtx, n: usize, Ghost(fuel): Ghost<nat>) -> (r: Ir)
    requires
        cx.ok(),
        room(cx.t, n as int, fuel),
    ensures
        r@ == command(cx, n as int, fuel),
    decreases fuel, 25int, 0int,
{
    lower_command_with_math_spacing(cx, n, MathSpacing::Normal, Ghost(fuel))
}

} // verus!

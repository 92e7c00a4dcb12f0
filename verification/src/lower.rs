//! The lowering of a tree to layout.
//!
//! What a step of the lowering gives is stated by a spec function of the same shape. The
//! functions call one another along the tree; `fuel` bounds how deep they follow it. An element
//! of which [`room`] holds is followed to its leaves.

use vstd::prelude::*;

use crate::alignment::{
    aligned_environment, body_has_top_level_ampersand, is_alignment, is_alignment_env, is_math, is_math_env,
    lower_aligned_environment, lower_math_environment, math_environment, top_level_tab,
};
use crate::commands::{command, lower_command};
use crate::conditional::{conditional, lower_conditional};
use crate::context::{fits, in_tree, lemma_room_takes, part, room, LowerCtx};
use crate::display::{
    display_math, inline_math, lower_display_math, lower_math, lower_math_body, math_body,
};
use crate::docs::{
    begin_breaks, behind_margin, doc_paragraph, doc_region, dtx_doc_region, dtx_paragraph_reflows,
    dtx_paragraph_starts_margined, element_behind_margin, environment_begin_has_newline, framed, is_dtx_doc_paragraph,
    is_margin_framed, margin_starts_dtx_doc_region, margin_starts_region, paragraph_reflows, starts_margined,
};
use crate::environments::{
    environment, lower_environment, lower_margin_framed_environment, margin_framed_environment,
};
use crate::expl::{code, conditional_here, expl_conditional_at, expl_group, lower_expl_code, lower_expl_group};
use crate::expl_paragraph::{expl_paragraph, lower_expl_paragraph};
use crate::flatten::{flatten_inline_prose, flatten_statements, prose_flat, without_statements};
use crate::gap::{
    blanks_end, classify_trivia, gap_end, gap_newlines, gap_of, lemma_blanks_end, lemma_gap_end, trivia_layout,
};
use crate::groups::{
    bracketed, glued_environment, lower_bracketed, lower_opaque_group, opaque_group,
    opaque_group_has_glued_environment_sibling,
};
use crate::fidelity::{faithful, is_faithful, source_of_all, text_of};
use crate::ir::{concat, concat2, group, if_break, space, verbatim, Ir, IrList, Layout};
use crate::lists::{is_list, is_list_env, list_environment, lower_list_environment};
use crate::math::lower_source;
use crate::predicates::{
    command_has_managed_arg, command_has_math_arg, comment_padding, contains_doc_margin,
    contains_indented_dtx_comment, contains_token, doc_margin_opens_line, has_indented_comment, has_managed_arg,
    has_math_arg, has_tok, has_verbatim_body, in_macrocode, inside_macrocode, leading_indented_dtx_comment_padding,
    margin_inside, multi_line, opens_line, spans_multiple_lines, verbatim_body,
};
use crate::prose::{
    lower_paragraph_reflow, paragraph_reflow, reflow_elements, reflow_elements_checked, reflowed, source_of,
    ReflowKind,
};
use crate::regions::{document_body_contains, document_body_holds, meet, ranges_overlap};
use crate::segments::{lower_optional, optional};
use crate::settings::WrapMode;
use crate::syntax::{Span, SyntaxKind, Tree};
use crate::text::{fully_guarded, strip_start, text_is_fully_guarded, trim_start, CharSet};

verus! {

// ---- tokens --------------------------------------------------------------------------------

/// A text without the line feed at its end.
pub open spec fn without_feed(text: Seq<char>) -> Seq<char> {
    if text.len() > 0 && text.last() == '\n' {
        text.drop_last()
    } else {
        text
    }
}

/// A token by itself. Margins and guards keep to the first column.
pub open spec fn loose(cx: LowerCtx, e: int) -> Layout {
    if cx.in_doc_region && cx.t.k(e) == SyntaxKind::DocMargin {
        Layout::Nil
    } else if cx.t.k(e) == SyntaxKind::DocMargin || cx.t.k(e) == SyntaxKind::Guard {
        Layout::ColumnZero(cx.t.txt(e))
    } else if cx.absorbs(e) {
        verbatim(without_feed(cx.t.txt(e)))
    } else {
        verbatim(cx.t.txt(e))
    }
}

pub fn lower_loose_token(cx: LowerCtx, e: usize) -> (r: Ir)
    requires
        e < cx.t.n(),
    ensures
        r@ == loose(cx, e as int),
{
    if cx.in_doc_region && cx.t.kind(e) == SyntaxKind::DocMargin {
        Ir::Nil
    } else if cx.t.kind(e) == SyntaxKind::DocMargin || cx.t.kind(e) == SyntaxKind::Guard {
        Ir::column_zero(cx.t.text(e))
    } else if cx.absorbs_control_newline(e) {
        let text = cx.t.text(e);
        let n: usize = text.unicode_len();
        if n > 0 && text.get_char(n - 1) == '\n' {
            assert(text@.drop_last() =~= text@.subrange(0, n - 1));
            Ir::verbatim(text.substring_char(0, n - 1))
        } else {
            Ir::verbatim(text)
        }
    } else {
        Ir::verbatim(cx.t.text(e))
    }
}

// ---- streams -------------------------------------------------------------------------------

/// Whether the paragraph can be laid out anew with every line of it behind the margin.
pub open spec fn reflows_safely(cx: LowerCtx, n: int, fuel: nat) -> bool
    decreases fuel, 45int, 0int,
{
    paragraph_reflows(cx, n) && starts_margined(cx.t, n) && fuel > 0 && !reflowed(
        LowerCtx { margin_probe: true, ..cx },
        cx.t.kids(n),
        ReflowKind::DtxProse,
        (fuel - 1) as nat,
    ).1
}

pub fn dtx_doc_paragraph_reflows_safely(cx: LowerCtx, n: usize, Ghost(fuel): Ghost<nat>) -> (r: bool)
    requires
        cx.ok(),
        room(cx.t, n as int, fuel),
    ensures
        r == reflows_safely(cx, n as int, fuel),
    decreases fuel, 45int, 0int,
{
    if !dtx_paragraph_reflows(cx, n) || !dtx_paragraph_starts_margined(cx, n) {
        return false;
    }
    let probe = LowerCtx { margin_probe: true, ..cx };
    proof {
        reveal(LowerCtx::ok);
    }
    let es = cx.children(n);
    !reflow_elements_checked(probe, &es, ReflowKind::DtxProse, Ghost((fuel - 1) as nat)).1
}

/// Whether the paragraph behind the margin puts the margin back itself.
pub open spec fn margin_floats(cx: LowerCtx, e: int, fuel: nat) -> bool
    decreases fuel, 46int, 0int,
{
    match behind_margin(cx.t, e) {
        Some(n) => cx.t.node_is(n as int, SyntaxKind::Paragraph) && doc_paragraph(cx.t, n as int) && reflows_safely(
            cx,
            n as int,
            fuel,
        ),
        None => false,
    }
}

pub fn margin_floats_into_paragraph(cx: LowerCtx, e: usize, Ghost(fuel): Ghost<nat>) -> (r: bool)
    requires
        cx.ok(),
        room(cx.t, e as int, fuel),
    ensures
        r == margin_floats(cx, e as int, fuel),
    decreases fuel, 46int, 0int,
{
    match element_behind_margin(cx, e) {
        Some(n) => cx.t.is_node(n, SyntaxKind::Paragraph) && is_dtx_doc_paragraph(cx, n)
            && dtx_doc_paragraph_reflows_safely(cx, n, Ghost(fuel)),
        None => false,
    }
}

/// Whether the margin is left out of a stream, with the blanks behind it.
pub open spec fn margin_left_out(cx: LowerCtx, e: int, fuel: nat) -> bool
    decreases fuel, 47int, 0int,
{
    cx.t.tok_is(e, SyntaxKind::DocMargin) && (cx.in_doc_region || margin_starts_region(cx, e) || (cx.wrapping()
        && !cx.margin_probe && margin_floats(cx, e, fuel)))
}

fn leaves_out_margin(cx: LowerCtx, e: usize, Ghost(fuel): Ghost<nat>) -> (r: bool)
    requires
        cx.ok(),
        room(cx.t, e as int, fuel),
    ensures
        r == margin_left_out(cx, e as int, fuel),
    decreases fuel, 47int, 0int,
{
    cx.t.token_is(e, SyntaxKind::DocMargin) && (cx.in_doc_region || margin_starts_dtx_doc_region(cx, e) || (
    cx.wraps_prose() && !cx.margin_probe && margin_floats_into_paragraph(cx, e, Ghost(fuel))))
}

/// The elements from `i` on, one after the other, with the author's lines kept.
pub open spec fn stream(cx: LowerCtx, es: Seq<usize>, i: int, fuel: nat) -> Seq<Layout>
    decreases fuel, 60int, es.len() - i,
{
    if i < 0 || i >= es.len() {
        Seq::empty()
    } else {
        proof {
            lemma_gap_end(cx.t, es, i);
            lemma_blanks_end(cx.t, es, i + 1);
        }
        let e = es[i] as int;
        if !cx.t.tok(e) {
            seq![node(cx, e, fuel)] + stream(cx, es, i + 1, fuel)
        } else if margin_left_out(cx, e, fuel) {
            stream(cx, es, blanks_end(cx.t, es, i + 1), fuel)
        } else if cx.t.gap(e) {
            if cx.off(e) {
                seq![verbatim(cx.t.txt(e))] + stream(cx, es, i + 1, fuel)
            } else {
                seq![trivia_layout(gap_of(cx.t, es, i), gap_newlines(cx.t, es, i), cx.in_cell)] + stream(
                    cx,
                    es,
                    gap_end(cx.t, es, i),
                    fuel,
                )
            }
        } else {
            seq![loose(cx, e)] + stream(cx, es, i + 1, fuel)
        }
    }
}

/// The elements, one after the other.
pub open spec fn streamed(cx: LowerCtx, es: Seq<usize>, fuel: nat) -> Layout
    decreases fuel, 61int, 0int,
{
    concat(stream(cx, es, 0, fuel))
}

pub fn lower_element_stream(cx: LowerCtx, es: &Vec<usize>, Ghost(fuel): Ghost<nat>) -> (r: IrList)
    requires
        cx.ok(),
        fits(cx.t, es@, fuel),
    ensures
        r@ == stream(cx, es@, 0, fuel),
    decreases fuel, 60int, 0int,
{
    let mut out = IrList::new();
    let mut i: usize = 0;
    assert(out@ + stream(cx, es@, 0, fuel) =~= stream(cx, es@, 0, fuel));
    while i < es.len()
        invariant
            cx.ok(),
            fits(cx.t, es@, fuel),
            i <= es@.len(),
            out@ + stream(cx, es@, i as int, fuel) == stream(cx, es@, 0, fuel),
        decreases es@.len() - i,
    {
        let e: usize = es[i];
        assert(room(cx.t, es@[i as int] as int, fuel));
        let ghost before = out@;
        let ghost start = i as int;
        if !cx.t.is_token(e) {
            out.push(lower_node(cx, e, Ghost(fuel)));
            i = i + 1;
            assert(out@ + stream(cx, es@, i as int, fuel) =~= before + stream(cx, es@, start, fuel));
        } else if leaves_out_margin(cx, e, Ghost(fuel)) {
            i = cx.skip_blanks(es, i + 1);
        } else if cx.t.is_gap(e) {
            if cx.is_suppressed(e) {
                out.push(Ir::verbatim(cx.t.text(e)));
                i = i + 1;
            } else {
                let (gap, end) = cx.consume_gap_widened(es, i);
                out.push(classify_trivia(gap, cx.in_cell));
                i = end;
            }
            assert(out@ + stream(cx, es@, i as int, fuel) =~= before + stream(cx, es@, start, fuel));
        } else {
            out.push(lower_loose_token(cx, e));
            i = i + 1;
            assert(out@ + stream(cx, es@, i as int, fuel) =~= before + stream(cx, es@, start, fuel));
        }
    }
    assert(out@ + stream(cx, es@, es@.len() as int, fuel) =~= out@);
    out
}

pub fn lower_stream(cx: LowerCtx, es: &Vec<usize>, Ghost(fuel): Ghost<nat>) -> (r: Ir)
    requires
        cx.ok(),
        fits(cx.t, es@, fuel),
    ensures
        r@ == streamed(cx, es@, fuel),
    decreases fuel, 61int, 0int,
{
    Ir::concat(lower_element_stream(cx, es, Ghost(fuel)))
}

/// The elements from `i` on, with the author's lines kept and the space within a line made one.
pub open spec fn prose_stream(cx: LowerCtx, es: Seq<usize>, i: int, fuel: nat) -> Seq<Layout>
    decreases fuel, 62int, es.len() - i,
{
    if i < 0 || i >= es.len() {
        Seq::empty()
    } else {
        proof {
            lemma_gap_end(cx.t, es, i);
        }
        let e = es[i] as int;
        if !cx.t.tok(e) {
            seq![node(cx, e, fuel)] + prose_stream(cx, es, i + 1, fuel)
        } else if cx.t.gap(e) {
            let newlines = gap_newlines(cx.t, es, i);
            seq![
                if newlines == 0 {
                    space()
                } else if newlines == 1 {
                    Layout::HardLine
                } else {
                    Layout::EmptyLine
                },
            ] + prose_stream(cx, es, gap_end(cx.t, es, i), fuel)
        } else {
            seq![loose(cx, e)] + prose_stream(cx, es, i + 1, fuel)
        }
    }
}

pub fn lower_prose_stream(cx: LowerCtx, es: &Vec<usize>, Ghost(fuel): Ghost<nat>) -> (r: IrList)
    requires
        cx.ok(),
        fits(cx.t, es@, fuel),
    ensures
        r@ == prose_stream(cx, es@, 0, fuel),
    decreases fuel, 62int, 0int,
{
    let mut out = IrList::new();
    let mut i: usize = 0;
    assert(out@ + prose_stream(cx, es@, 0, fuel) =~= prose_stream(cx, es@, 0, fuel));
    while i < es.len()
        invariant
            cx.ok(),
            fits(cx.t, es@, fuel),
            i <= es@.len(),
            out@ + prose_stream(cx, es@, i as int, fuel) == prose_stream(cx, es@, 0, fuel),
        decreases es@.len() - i,
    {
        let e: usize = es[i];
        assert(room(cx.t, es@[i as int] as int, fuel));
        let ghost before = out@;
        let ghost start = i as int;
        if !cx.t.is_token(e) {
            out.push(lower_node(cx, e, Ghost(fuel)));
            i = i + 1;
        } else if cx.t.is_gap(e) {
            let (newlines, end) = cx.consume_widened_gap_slice(es, i);
            out.push(
                if newlines == 0 {
                    Ir::space()
                } else if newlines == 1 {
                    Ir::HardLine
                } else {
                    Ir::EmptyLine
                },
            );
            i = end;
        } else {
            out.push(lower_loose_token(cx, e));
            i = i + 1;
        }
        assert(out@ + prose_stream(cx, es@, i as int, fuel) =~= before + prose_stream(cx, es@, start, fuel));
    }
    assert(out@ + prose_stream(cx, es@, es@.len() as int, fuel) =~= out@);
    out
}

// ---- nodes ---------------------------------------------------------------------------------

/// A documentation paragraph: laid out anew where every line of it stays behind its margin, and
/// with its nested constructs as they stand otherwise.
pub open spec fn documentation_paragraph(cx: LowerCtx, n: int, fuel: nat) -> Layout
    decreases fuel, 46int, 0int,
{
    if fuel == 0 {
        Layout::Nil
    } else if reflows_safely(cx, n, fuel) {
        reflowed(cx, cx.t.kids(n), ReflowKind::DtxProse, (fuel - 1) as nat).0
    } else {
        streamed(LowerCtx { preserve_nested: true, ..cx }, cx.t.kids(n), (fuel - 1) as nat)
    }
}

pub fn lower_dtx_doc_paragraph(cx: LowerCtx, n: usize, Ghost(fuel): Ghost<nat>) -> (r: Ir)
    requires
        cx.ok(),
        room(cx.t, n as int, fuel),
    ensures
        r@ == documentation_paragraph(cx, n as int, fuel),
    decreases fuel, 46int, 0int,
{
    let es = cx.children(n);
    if dtx_doc_paragraph_reflows_safely(cx, n, Ghost(fuel)) {
        reflow_elements(cx, &es, ReflowKind::DtxProse, Ghost((fuel - 1) as nat))
    } else {
        let preserve = LowerCtx { preserve_nested: true, ..cx };
        proof {
            reveal(LowerCtx::ok);
        }
        lower_stream(preserve, &es, Ghost((fuel - 1) as nat))
    }
}

/// Whether the kind is one of a construct that has a layout of its own.
pub open spec fn is_construct(kind: SyntaxKind) -> bool {
    kind == SyntaxKind::Command || kind == SyntaxKind::Environment || kind == SyntaxKind::Group || kind
        == SyntaxKind::Optional || kind == SyntaxKind::InlineMath || kind == SyntaxKind::DisplayMath || kind
        == SyntaxKind::Math
}

fn is_construct_kind(kind: SyntaxKind) -> (r: bool)
    ensures
        r == is_construct(kind),
{
    kind == SyntaxKind::Command || kind == SyntaxKind::Environment || kind == SyntaxKind::Group || kind
        == SyntaxKind::Optional || kind == SyntaxKind::InlineMath || kind == SyntaxKind::DisplayMath || kind
        == SyntaxKind::Math
}

/// Whether the node is reproduced as it stands, margins and all: an environment whose header is
/// not on a line of its own, a construct of a documentation paragraph that keeps its lines, and
/// a command with a guard in it.
pub open spec fn kept_as_is(cx: LowerCtx, n: int) -> bool {
    let t = cx.t;
    ||| cx.is_dtx && t.k(n) == SyntaxKind::Environment && opens_line(cx, n) && (begin_breaks(t, n) || !framed(t, n))
    ||| cx.preserve_nested && is_construct(t.k(n))
    ||| t.k(n) == SyntaxKind::Command && opens_line(cx, n) && has_tok(t, n, SyntaxKind::Guard)
    ||| t.k(n) == SyntaxKind::Paragraph && opens_line(cx, n) && has_tok(t, n, SyntaxKind::Guard) && match t.head(n) {
        Some(e) => t.k(e as int) == SyntaxKind::ControlWord,
        None => false,
    }
}

fn keeps_source(cx: LowerCtx, n: usize) -> (r: bool)
    requires
        cx.ok(),
        n < cx.t.n(),
    ensures
        r == kept_as_is(cx, n as int),
{
    let kind = cx.t.kind(n);
    if cx.preserve_nested && is_construct_kind(kind) {
        return true;
    }
    if kind == SyntaxKind::Environment {
        return cx.is_dtx && doc_margin_opens_line(cx, n) && (environment_begin_has_newline(cx, n) || !is_margin_framed(
            cx,
            n,
        ));
    }
    if kind == SyntaxKind::Command {
        return doc_margin_opens_line(cx, n) && contains_token(cx, n, SyntaxKind::Guard);
    }
    if kind == SyntaxKind::Paragraph {
        proof {
            reveal(LowerCtx::ok);
        }
        return doc_margin_opens_line(cx, n) && contains_token(cx, n, SyntaxKind::Guard) && match cx.t.first_token(n) {
            Some(e) => cx.t.kind(e) == SyntaxKind::ControlWord,
            None => false,
        };
    }
    false
}

/// The elements before `i` that overlap the range.
pub open spec fn overlapping(t: &Tree, es: Seq<usize>, range: Span, i: int) -> Seq<usize>
    decreases i,
{
    if i <= 0 || i > es.len() {
        Seq::empty()
    } else if meet(range, t.elems@[es[i - 1] as int].span) {
        overlapping(t, es, range, i - 1).push(es[i - 1])
    } else {
        overlapping(t, es, range, i - 1)
    }
}

/// The blocks before `i` that overlap the range. A document whose body holds the range is opened.
pub open spec fn blocks(t: &Tree, es: Seq<usize>, range: Span, i: int) -> Seq<usize>
    decreases i,
{
    if i <= 0 || i > es.len() {
        Seq::empty()
    } else {
        let e = es[i - 1] as int;
        let before = blocks(t, es, range, i - 1);
        if !meet(range, t.elems@[e].span) {
            before
        } else if document_body_holds(t, e, range) {
            before + overlapping(t, t.kids(e), range, t.kids(e).len() as int)
        } else {
            before.push(es[i - 1])
        }
    }
}

fn push_overlapping(cx: LowerCtx, out: Vec<usize>, es: &Vec<usize>, range: Span, Ghost(fuel): Ghost<nat>) -> (r: Vec<usize>)
    requires
        fits(cx.t, out@, fuel),
        fits(cx.t, es@, fuel),
    ensures
        r@ == out@ + overlapping(cx.t, es@, range, es@.len() as int),
        fits(cx.t, r@, fuel),
{
    let ghost before = out@;
    let mut out = out;
    let mut i: usize = 0;
    assert(out@ =~= before + overlapping(cx.t, es@, range, 0));
    while i < es.len()
        invariant
            fits(cx.t, out@, fuel),
            fits(cx.t, es@, fuel),
            i <= es@.len(),
            out@ == before + overlapping(cx.t, es@, range, i as int),
        decreases es@.len() - i,
    {
        assert(room(cx.t, es@[i as int] as int, fuel));
        if ranges_overlap(range, cx.t.span(es[i])) {
            out.push(es[i]);
            assert(out@ =~= before + overlapping(cx.t, es@, range, i + 1));
        }
        i = i + 1;
    }
    out
}

fn select_blocks(cx: LowerCtx, es: &Vec<usize>, range: Span, Ghost(fuel): Ghost<nat>) -> (r: Vec<usize>)
    requires
        cx.ok(),
        fits(cx.t, es@, fuel),
    ensures
        r@ == blocks(cx.t, es@, range, es@.len() as int),
        fits(cx.t, r@, fuel),
{
    let mut out: Vec<usize> = Vec::new();
    let mut i: usize = 0;
    assert(out@ =~= Seq::<usize>::empty());
    proof {
        reveal(LowerCtx::ok);
    }
    while i < es.len()
        invariant
            cx.ok(),
            cx.t.wf(),
            fits(cx.t, out@, fuel),
            fits(cx.t, es@, fuel),
            i <= es@.len(),
            out@ == blocks(cx.t, es@, range, i as int),
        decreases es@.len() - i,
    {
        let e: usize = es[i];
        assert(room(cx.t, es@[i as int] as int, fuel));
        if ranges_overlap(range, cx.t.span(e)) {
            if document_body_contains(cx.t, e, range) {
                let inner = cx.children(e);
                out = push_overlapping(cx, out, &inner, range, Ghost(fuel));
            } else {
                out.push(e);
            }
        }
        i = i + 1;
    }
    out
}

/// Where the blanks at the start of the document end that are laid out.
pub open spec fn indentation_end(cx: LowerCtx, es: Seq<usize>, i: int) -> int
    decreases es.len() - i,
{
    if 0 <= i < es.len() && cx.t.tok_is(es[i] as int, SyntaxKind::Whitespace) && !cx.off(es[i] as int) {
        indentation_end(cx, es, i + 1)
    } else {
        i
    }
}

/// The context of a whole document.
pub open spec fn of_whole(cx: LowerCtx) -> LowerCtx {
    LowerCtx { range: None, ..cx }
}

fn without_range<'a>(cx: LowerCtx<'a>) -> (r: LowerCtx<'a>)
    requires
        cx.ok(),
    ensures
        r == of_whole(cx),
        r.ok(),
        r.t == cx.t,
{
    proof {
        reveal(LowerCtx::ok);
    }
    LowerCtx { range: None, ..cx }
}

/// A whole document, or the part of it that is to be laid out. The first line is not indented.
pub open spec fn document(cx: LowerCtx, n: int, fuel: nat) -> Layout
    decreases fuel, 43int, 0int,
{
    if fuel == 0 {
        Layout::Nil
    } else {
        let es = cx.t.kids(n);
        let less = (fuel - 1) as nat;
        match cx.range {
            Some(range) => streamed(of_whole(cx), blocks(cx.t, es, range, es.len() as int), less),
            None => streamed(cx, es.subrange(indentation_end(cx, es, 0), es.len() as int), less),
        }
    }
}

pub fn lower_root(cx: LowerCtx, n: usize, Ghost(fuel): Ghost<nat>) -> (r: Ir)
    requires
        cx.ok(),
        room(cx.t, n as int, fuel),
    ensures
        r@ == document(cx, n as int, fuel),
    decreases fuel, 43int, 0int,
{
    let ghost less = (fuel - 1) as nat;
    let es = cx.children(n);
    match cx.range {
        Some(range) => {
            let part = select_blocks(cx, &es, range, Ghost(less));
            lower_stream(without_range(cx), &part, Ghost(less))
        },
        None => {
            let mut i: usize = 0;
            while i < es.len() && cx.t.token_is(es[i], SyntaxKind::Whitespace) && !cx.is_suppressed(es[i])
                invariant
                    in_tree(cx.t, es@),
                    i <= es@.len(),
                    indentation_end(cx, es@, i as int) == indentation_end(cx, es@, 0),
                decreases es@.len() - i,
            {
                i = i + 1;
            }
            let rest = part(&es, i, es.len());
            assert(fits(cx.t, rest@, less));
            lower_stream(cx, &rest, Ghost(less))
        },
    }
}

/// The layout of a node of expl3 code. Other nodes have none.
pub open spec fn expl_node(cx: LowerCtx, n: int, fuel: nat) -> Option<Layout>
    decreases fuel, 38int, 0int,
{
    let kind = cx.t.k(n);
    if fuel == 0 || cx.regions@.len() == 0 {
        None
    } else if kind == SyntaxKind::Paragraph && cx.expl_in(n) {
        Some(expl_paragraph(cx, n, fuel))
    } else if kind == SyntaxKind::Group && cx.expl_at(n) {
        Some(expl_group(cx, n, SyntaxKind::LBrace, SyntaxKind::RBrace, fuel))
    } else if kind == SyntaxKind::Optional && cx.expl_at(n) {
        Some(expl_group(cx, n, SyntaxKind::LBracket, SyntaxKind::RBracket, fuel))
    } else if kind == SyntaxKind::Command && cx.expl_at(n) {
        let fill = code(cx, cx.t.kids(n), false, (fuel - 1) as nat);
        match conditional_here(cx, n, fuel) {
            Some(exploded) => Some(group(if_break(fill, exploded))),
            None => Some(fill),
        }
    } else {
        None
    }
}

fn lower_expl_command(cx: LowerCtx, n: usize, Ghost(fuel): Ghost<nat>) -> (r: Ir)
    requires
        cx.ok(),
        room(cx.t, n as int, fuel),
        cx.regions@.len() > 0,
        cx.t.k(n as int) == SyntaxKind::Command,
        cx.expl_at(n as int),
    ensures
        expl_node(cx, n as int, fuel) == Some(r@),
    decreases fuel, 37int, 0int,
{
    let es = cx.children(n);
    let fill = lower_expl_code(cx, &es, false, Ghost((fuel - 1) as nat));
    match expl_conditional_at(cx, n, Ghost(fuel)) {
        Some(exploded) => Ir::group(Ir::if_break(fill, exploded)),
        None => fill,
    }
}

fn lower_expl_node(cx: LowerCtx, n: usize, Ghost(fuel): Ghost<nat>) -> (r: Option<Ir>)
    requires
        cx.ok(),
        room(cx.t, n as int, fuel),
    ensures
        r is Some == expl_node(cx, n as int, fuel) is Some,
        r matches Some(x) ==> expl_node(cx, n as int, fuel) == Some(x@),
    decreases fuel, 38int, 0int,
{
    proof {
        lemma_room_takes(&cx, n as int, fuel);
    }
    let kind = cx.t.kind(n);
    if !cx.any_expl3() {
        None
    } else if kind == SyntaxKind::Paragraph && cx.overlaps_expl3(n) {
        Some(lower_expl_paragraph(cx, n, Ghost(fuel)))
    } else if kind == SyntaxKind::Group && cx.in_expl3_region(n) {
        Some(lower_expl_group(cx, n, SyntaxKind::LBrace, SyntaxKind::RBrace, Ghost(fuel)))
    } else if kind == SyntaxKind::Optional && cx.in_expl3_region(n) {
        Some(lower_expl_group(cx, n, SyntaxKind::LBracket, SyntaxKind::RBracket, Ghost(fuel)))
    } else if kind == SyntaxKind::Command && cx.in_expl3_region(n) {
        Some(lower_expl_command(cx, n, Ghost(fuel)))
    } else {
        None
    }
}

/// A paragraph of text.
pub open spec fn text_paragraph(cx: LowerCtx, n: int, fuel: nat) -> Layout
    decreases fuel, 47int, 0int,
{
    if fuel == 0 {
        Layout::Nil
    } else if cx.wrapping() {
        if !cx.in_doc_region && doc_paragraph(cx.t, n) {
            documentation_paragraph(cx, n, fuel)
        } else {
            paragraph_reflow(cx, n, fuel)
        }
    } else if !doc_paragraph(cx.t, n) {
        let less = (fuel - 1) as nat;
        let es = without_statements(cx.t, cx.t.kids(n), 0);
        concat(prose_stream(cx, prose_flat(cx, es, 0, false, Seq::empty(), less), 0, less))
    } else {
        streamed(cx, cx.t.kids(n), (fuel - 1) as nat)
    }
}

fn lower_text_paragraph(cx: LowerCtx, n: usize, Ghost(fuel): Ghost<nat>) -> (r: Ir)
    requires
        cx.ok(),
        room(cx.t, n as int, fuel),
    ensures
        r@ == text_paragraph(cx, n as int, fuel),
    decreases fuel, 47int, 0int,
{
    proof {
        lemma_room_takes(&cx, n as int, fuel);
    }
    if cx.wraps_prose() {
        if !cx.in_doc_region && is_dtx_doc_paragraph(cx, n) {
            return lower_dtx_doc_paragraph(cx, n, Ghost(fuel));
        }
        return lower_paragraph_reflow(cx, n, Ghost(fuel));
    }
    let ghost less = (fuel - 1) as nat;
    let all = cx.children(n);
    if !is_dtx_doc_paragraph(cx, n) {
        let es = flatten_statements(cx, &all, Ghost(less));
        let flat = flatten_inline_prose(cx, &es, false, Ghost(less));
        Ir::concat(lower_prose_stream(cx, &flat, Ghost(less)))
    } else {
        lower_stream(cx, &all, Ghost(less))
    }
}

/// How an environment is laid out.
#[derive(Clone, Copy, Debug, PartialEq, Eq, Structural)]
pub enum EnvLayout {
    Stream,
    Framed,
    Math,
    Table,
    List,
    Plain,
}

/// How the environment is laid out: as its signature says, unless its body is reproduced byte
/// by byte or a margin stands in it.
#[verifier::opaque]
pub open spec fn env_layout(cx: LowerCtx, n: int) -> EnvLayout {
    let margined = margin_inside(cx, n);
    if verbatim_body(cx.t, n) {
        EnvLayout::Stream
    } else if !cx.in_doc_region && framed(cx.t, n) && !is_math(cx, n) {
        EnvLayout::Framed
    } else if !cx.in_doc_region && is_math(cx, n) && !margined {
        EnvLayout::Math
    } else if is_alignment(cx, n) && !margined {
        EnvLayout::Table
    } else if is_list(cx, n) && (cx.wrapping() || !margined) {
        EnvLayout::List
    } else if margined {
        EnvLayout::Stream
    } else if top_level_tab(cx.t, n) {
        EnvLayout::Table
    } else {
        EnvLayout::Plain
    }
}

fn classify_environment(cx: LowerCtx, n: usize) -> (r: EnvLayout)
    requires
        cx.ok(),
        n < cx.t.n(),
    ensures
        r == env_layout(cx, n as int),
{
    proof {
        reveal(env_layout);
    }
    if has_verbatim_body(cx, n) {
        return EnvLayout::Stream;
    }
    let math = is_math_env(cx, n);
    if !cx.in_doc_region && is_margin_framed(cx, n) && !math {
        return EnvLayout::Framed;
    }
    let margined = contains_doc_margin(cx, n);
    if !cx.in_doc_region && math && !margined {
        EnvLayout::Math
    } else if is_alignment_env(cx, n) && !margined {
        EnvLayout::Table
    } else if is_list_env(cx, n) && (cx.wraps_prose() || !margined) {
        EnvLayout::List
    } else if margined {
        EnvLayout::Stream
    } else if body_has_top_level_ampersand(cx, n) {
        EnvLayout::Table
    } else {
        EnvLayout::Plain
    }
}

/// An environment.
pub open spec fn environment_node(cx: LowerCtx, n: int, fuel: nat) -> Layout
    decreases fuel, 42int, 0int,
{
    match env_layout(cx, n) {
        EnvLayout::Stream => if fuel == 0 {
            Layout::Nil
        } else {
            streamed(cx, cx.t.kids(n), (fuel - 1) as nat)
        },
        EnvLayout::Framed => margin_framed_environment(cx, n, fuel),
        EnvLayout::Math => math_environment(cx, n, fuel),
        EnvLayout::Table => aligned_environment(cx, n, fuel),
        EnvLayout::List => list_environment(cx, n, fuel),
        EnvLayout::Plain => environment(cx, n, fuel),
    }
}

fn lower_environment_node(cx: LowerCtx, n: usize, Ghost(fuel): Ghost<nat>) -> (r: Ir)
    requires
        cx.ok(),
        room(cx.t, n as int, fuel),
    ensures
        r@ == environment_node(cx, n as int, fuel),
    decreases fuel, 42int, 0int,
{
    match classify_environment(cx, n) {
        EnvLayout::Stream => {
            let es = cx.children(n);
            lower_stream(cx, &es, Ghost((fuel - 1) as nat))
        },
        EnvLayout::Framed => lower_margin_framed_environment(cx, n, Ghost(fuel)),
        EnvLayout::Math => lower_math_environment(cx, n, Ghost(fuel)),
        EnvLayout::Table => lower_aligned_environment(cx, n, Ghost(fuel)),
        EnvLayout::List => lower_list_environment(cx, n, Ghost(fuel)),
        EnvLayout::Plain => lower_environment(cx, n, Ghost(fuel)),
    }
}

/// A group, where it has a layout of its own.
pub open spec fn group_node(cx: LowerCtx, n: int, fuel: nat) -> Option<Layout>
    decreases fuel, 41int, 0int,
{
    if glued_environment(cx.t, n) {
        Some(verbatim(cx.t.src(n)))
    } else if cx.wrap == WrapMode::Reflow && !opens_line(cx, n) {
        Some(opaque_group(cx, n, fuel))
    } else if multi_line(cx.t, n) {
        Some(bracketed(cx, n, SyntaxKind::LBrace, SyntaxKind::RBrace, false, fuel))
    } else {
        None
    }
}

fn lower_group_node(cx: LowerCtx, n: usize, Ghost(fuel): Ghost<nat>) -> (r: Option<Ir>)
    requires
        cx.ok(),
        room(cx.t, n as int, fuel),
    ensures
        r is Some == group_node(cx, n as int, fuel) is Some,
        r matches Some(x) ==> group_node(cx, n as int, fuel) == Some(x@),
    decreases fuel, 41int, 0int,
{
    if opaque_group_has_glued_environment_sibling(cx, n) {
        return Some(lower_source(cx, n));
    }
    let reflow = match cx.wrap {
        WrapMode::Reflow => true,
        _ => false,
    };
    if reflow && !doc_margin_opens_line(cx, n) {
        Some(lower_opaque_group(cx, n, Ghost(fuel)))
    } else if spans_multiple_lines(cx, n) {
        Some(lower_bracketed(cx, n, SyntaxKind::LBrace, SyntaxKind::RBrace, false, Ghost(fuel)))
    } else {
        None
    }
}

/// A construct within text, where it has a layout of its own. A margin in it takes that away.
pub open spec fn inline_node(cx: LowerCtx, n: int, fuel: nat) -> Option<Layout>
    decreases fuel, 43int, 0int,
{
    let kind = cx.t.k(n);
    if margin_inside(cx, n) {
        None
    } else if kind == SyntaxKind::Conditional {
        Some(conditional(cx, n, fuel))
    } else if kind == SyntaxKind::Command {
        if has_math_arg(cx.sig(n)) || (cx.wrapping() && has_managed_arg(cx.sig(n))) {
            Some(command(cx, n, fuel))
        } else {
            None
        }
    } else if kind == SyntaxKind::InlineMath {
        Some(inline_math(cx, n, fuel))
    } else if kind == SyntaxKind::DisplayMath {
        Some(display_math(cx, n, fuel))
    } else if kind == SyntaxKind::Math {
        if cx.in_doc_region {
            None
        } else {
            Some(math_body(cx, n, fuel))
        }
    } else if kind == SyntaxKind::Group {
        group_node(cx, n, fuel)
    } else if kind == SyntaxKind::Optional {
        optional(cx, n, false, fuel)
    } else {
        None
    }
}

fn lower_inline_node(cx: LowerCtx, n: usize, Ghost(fuel): Ghost<nat>) -> (r: Option<Ir>)
    requires
        cx.ok(),
        room(cx.t, n as int, fuel),
    ensures
        r is Some == inline_node(cx, n as int, fuel) is Some,
        r matches Some(x) ==> inline_node(cx, n as int, fuel) == Some(x@),
    decreases fuel, 43int, 0int,
{
    let kind = cx.t.kind(n);
    if contains_doc_margin(cx, n) {
        None
    } else if kind == SyntaxKind::Conditional {
        Some(lower_conditional(cx, n, Ghost(fuel)))
    } else if kind == SyntaxKind::Command {
        if command_has_math_arg(cx, n) || (cx.wraps_prose() && command_has_managed_arg(cx, n)) {
            Some(lower_command(cx, n, Ghost(fuel)))
        } else {
            None
        }
    } else if kind == SyntaxKind::InlineMath {
        Some(lower_math(cx, n, Ghost(fuel)))
    } else if kind == SyntaxKind::DisplayMath {
        Some(lower_display_math(cx, n, Ghost(fuel)))
    } else if kind == SyntaxKind::Math {
        if cx.in_doc_region {
            None
        } else {
            Some(lower_math_body(cx, n, Ghost(fuel)))
        }
    } else if kind == SyntaxKind::Group {
        lower_group_node(cx, n, Ghost(fuel))
    } else if kind == SyntaxKind::Optional {
        lower_optional(cx, n, false, Ghost(fuel))
    } else {
        None
    }
}

/// A node by its kind. A node without a layout of its own is its children one after the other.
pub open spec fn structure(cx: LowerCtx, n: int, fuel: nat) -> Layout
    decreases fuel, 48int, 0int,
{
    let kind = cx.t.k(n);
    if fuel == 0 {
        Layout::Nil
    } else if kind == SyntaxKind::Paragraph {
        text_paragraph(cx, n, fuel)
    } else if kind == SyntaxKind::Environment {
        environment_node(cx, n, fuel)
    } else if kind == SyntaxKind::Root {
        document(cx, n, fuel)
    } else {
        match inline_node(cx, n, fuel) {
            Some(l) => l,
            None => streamed(cx, cx.t.kids(n), (fuel - 1) as nat),
        }
    }
}

fn lower_structure(cx: LowerCtx, n: usize, Ghost(fuel): Ghost<nat>) -> (r: Ir)
    requires
        cx.ok(),
        room(cx.t, n as int, fuel),
    ensures
        r@ == structure(cx, n as int, fuel),
    decreases fuel, 48int, 0int,
{
    let kind = cx.t.kind(n);
    let es = cx.children(n);
    if kind == SyntaxKind::Paragraph {
        lower_text_paragraph(cx, n, Ghost(fuel))
    } else if kind == SyntaxKind::Environment {
        lower_environment_node(cx, n, Ghost(fuel))
    } else if kind == SyntaxKind::Root {
        lower_root(cx, n, Ghost(fuel))
    } else {
        match lower_inline_node(cx, n, Ghost(fuel)) {
            Some(ir) => ir,
            None => lower_stream(cx, &es, Ghost((fuel - 1) as nat)),
        }
    }
}

/// The comment of the node's first line in a document whose comments are indented.
pub open spec fn padding_of(t: &Tree, n: int) -> Layout {
    match comment_padding(t, n) {
        Some(text) => verbatim(text),
        None => Layout::Nil,
    }
}

/// Whether a comment in the node is indented, and so kept where it stands.
pub open spec fn keeps_comments(cx: LowerCtx, n: int) -> bool {
    cx.is_dtx && cx.t.k(n) != SyntaxKind::Root && !in_macrocode(cx.t, n) && has_indented_comment(cx.t, n)
}

/// The context within a documentation region, whose margins are put back around the whole.
pub open spec fn within_doc_region(cx: LowerCtx) -> LowerCtx {
    LowerCtx { in_doc_region: true, preserve_nested: false, ..cx }
}

/// How a node is lowered.
#[derive(Clone, Copy, Debug, PartialEq, Eq, Structural)]
pub enum NodePath {
    /// As it stands.
    Source,
    /// Not at all: it has been put elsewhere.
    Omitted,
    /// As it stands, with the blanks before its comment.
    Comments,
    /// As a documentation region.
    DocRegion,
    /// As it stands, without the line breaks before it.
    Guarded,
    /// By its kind.
    Laid,
}

/// How the node is lowered.
#[verifier::opaque]
pub open spec fn node_path(cx: LowerCtx, n: int) -> NodePath {
    let t = cx.t;
    let kind = t.k(n);
    if kind != SyntaxKind::Root && cx.off(n) {
        NodePath::Source
    } else if kind == SyntaxKind::DocComment && cx.omitted == Some(t.elems@[n].span) {
        NodePath::Omitted
    } else if keeps_comments(cx, n) {
        NodePath::Comments
    } else if doc_region(cx, n) {
        NodePath::DocRegion
    } else if kept_as_is(cx, n) {
        NodePath::Source
    } else if kind == SyntaxKind::Paragraph && fully_guarded(t.src(n)) {
        NodePath::Guarded
    } else {
        NodePath::Laid
    }
}

fn classify_node(cx: LowerCtx, n: usize) -> (r: NodePath)
    requires
        cx.ok(),
        n < cx.t.n(),
    ensures
        r == node_path(cx, n as int),
        r == NodePath::DocRegion ==> !cx.in_doc_region,
{
    proof {
        reveal(node_path);
    }
    let kind = cx.t.kind(n);
    if kind != SyntaxKind::Root && cx.is_suppressed(n) {
        return NodePath::Source;
    }
    if kind == SyntaxKind::DocComment {
        match cx.omitted {
            Some(span) => {
                if span == cx.t.span(n) {
                    return NodePath::Omitted;
                }
            },
            None => {},
        }
    }
    if cx.is_dtx && kind != SyntaxKind::Root && !inside_macrocode(cx, n) && contains_indented_dtx_comment(cx, n) {
        return NodePath::Comments;
    }
    if dtx_doc_region(cx, n) {
        return NodePath::DocRegion;
    }
    if keeps_source(cx, n) {
        return NodePath::Source;
    }
    if kind == SyntaxKind::Paragraph {
        let text = source_of(cx, n);
        if text_is_fully_guarded(text.as_str()) {
            return NodePath::Guarded;
        }
    }
    NodePath::Laid
}

/// A node by its kind, with expl3 code apart.
pub open spec fn laid(cx: LowerCtx, n: int, fuel: nat) -> Layout
    decreases fuel, 49int, 0int,
{
    match expl_node(cx, n, fuel) {
        Some(l) => l,
        None => structure(cx, n, fuel),
    }
}

fn lower_laid(cx: LowerCtx, n: usize, Ghost(fuel): Ghost<nat>) -> (r: Ir)
    requires
        cx.ok(),
        room(cx.t, n as int, fuel),
    ensures
        r@ == laid(cx, n as int, fuel),
    decreases fuel, 49int, 0int,
{
    match lower_expl_node(cx, n, Ghost(fuel)) {
        Some(ir) => ir,
        None => lower_structure(cx, n, Ghost(fuel)),
    }
}

/// What a node comes to by its path alone.
pub open spec fn unchecked(cx: LowerCtx, n: int, fuel: nat) -> Layout
    decreases fuel, 50int, (if cx.in_doc_region { 0int } else { 1int }),
{
    match node_path(cx, n) {
        NodePath::Source => verbatim(cx.t.src(n)),
        NodePath::Omitted => Layout::Nil,
        NodePath::Comments => concat2(padding_of(cx.t, n), verbatim(cx.t.src(n))),
        NodePath::DocRegion => if cx.in_doc_region {
            Layout::Nil
        } else {
            Layout::DocMargin(Box::new(unchecked(within_doc_region(cx), n, fuel)))
        },
        NodePath::Guarded => verbatim(strip_start(cx.t.src(n), CharSet::LineBreaks)),
        NodePath::Laid => laid(cx, n, fuel),
    }
}

/// Whether the node is a block whose layout is held against the source: the document, a paragraph,
/// an environment, or what else stands directly in the document or in an environment. What stands
/// in a documentation region is part of it, and a comment that has been put before its statement
/// is missing where it stood: there the block around counts.
pub open spec fn is_block(cx: LowerCtx, n: int) -> bool {
    let kind = cx.t.k(n);
    let around = cx.t.k(cx.t.up(n));
    &&& !cx.in_doc_region
    &&& !cx.margin_probe
    &&& cx.omitted is None
    &&& n == 0 || kind == SyntaxKind::Paragraph || kind == SyntaxKind::Environment || around == SyntaxKind::Root || around
        == SyntaxKind::Environment
}

fn is_checked_block(cx: LowerCtx, n: usize) -> (r: bool)
    requires
        cx.ok(),
        n < cx.t.n(),
    ensures
        r == is_block(cx, n as int),
{
    proof {
        reveal(LowerCtx::ok);
    }
    if cx.in_doc_region || cx.margin_probe || cx.omitted.is_some() {
        return false;
    }
    let kind = cx.t.kind(n);
    let up: usize = cx.t.elems[n].parent;
    assert(up < cx.t.n()) by {
        assert(n > 0 ==> cx.t.up(n as int) < n);
    }
    let around = cx.t.kind(up);
    n == 0 || kind == SyntaxKind::Paragraph || kind == SyntaxKind::Environment || around == SyntaxKind::Root || around
        == SyntaxKind::Environment
}

/// What a block lays out: the blocks of the range that is asked for, or itself.
pub open spec fn portion(cx: LowerCtx, n: int) -> Seq<usize> {
    match cx.range {
        Some(range) => if cx.t.k(n) == SyntaxKind::Root {
            blocks(cx.t, cx.t.kids(n), range, cx.t.kids(n).len() as int)
        } else {
            seq![n as usize]
        },
        None => seq![n as usize],
    }
}

/// The layout of a node, or its source where the layout of a block would not say what it says.
#[verifier::opaque]
pub open spec fn checked(cx: LowerCtx, n: int, l: Layout) -> Layout {
    if is_block(cx, n) && !faithful(cx.t, portion(cx, n), l, cx.is_dtx) {
        verbatim(text_of(cx.t, portion(cx, n)))
    } else {
        l
    }
}

/// What a node is lowered to.
pub open spec fn node(cx: LowerCtx, n: int, fuel: nat) -> Layout
    decreases fuel, 50int, 2int,
{
    checked(cx, n, unchecked(cx, n, fuel))
}

fn laid_out_elements(cx: LowerCtx, n: usize, Ghost(fuel): Ghost<nat>) -> (r: Vec<usize>)
    requires
        cx.ok(),
        room(cx.t, n as int, fuel),
    ensures
        r@ == portion(cx, n as int),
        in_tree(cx.t, r@),
{
    if let Some(range) = cx.range {
        if cx.t.kind(n) == SyntaxKind::Root {
            let es = cx.children(n);
            return select_blocks(cx, &es, range, Ghost((fuel - 1) as nat));
        }
    }
    let mut out: Vec<usize> = Vec::new();
    out.push(n);
    assert(out@ =~= seq![n]);
    out
}

fn check_block(cx: LowerCtx, n: usize, layout: Ir, Ghost(fuel): Ghost<nat>) -> (r: Ir)
    requires
        cx.ok(),
        room(cx.t, n as int, fuel),
    ensures
        r@ == checked(cx, n as int, layout@),
{
    proof {
        reveal(checked);
    }
    if !is_checked_block(cx, n) {
        return layout;
    }
    let es = laid_out_elements(cx, n, Ghost(fuel));
    proof {
        reveal(LowerCtx::ok);
    }
    if is_faithful(cx.t, &es, &layout, cx.is_dtx) {
        layout
    } else {
        Ir::verbatim(source_of_all(cx.t, &es).as_str())
    }
}

fn lower_indented_comments(cx: LowerCtx, n: usize) -> (r: Ir)
    requires
        cx.ok(),
        n < cx.t.n(),
    ensures
        r@ == concat2(padding_of(cx.t, n as int), verbatim(cx.t.src(n as int))),
{
    let padding = match leading_indented_dtx_comment_padding(cx, n) {
        Some(text) => Ir::verbatim(text),
        None => Ir::Nil,
    };
    Ir::concat2(padding, lower_source(cx, n))
}

fn lower_unchecked(cx: LowerCtx, n: usize, Ghost(fuel): Ghost<nat>) -> (r: Ir)
    requires
        cx.ok(),
        room(cx.t, n as int, fuel),
    ensures
        r@ == unchecked(cx, n as int, fuel),
    decreases fuel, 50int, (if cx.in_doc_region { 0int } else { 1int }),
{
    match classify_node(cx, n) {
        NodePath::Source => lower_source(cx, n),
        NodePath::Omitted => Ir::Nil,
        NodePath::Comments => lower_indented_comments(cx, n),
        NodePath::DocRegion => {
            let inner = LowerCtx { in_doc_region: true, preserve_nested: false, ..cx };
            proof {
                reveal(LowerCtx::ok);
            }
            Ir::doc_margin(lower_unchecked(inner, n, Ghost(fuel)))
        },
        NodePath::Guarded => {
            let text = source_of(cx, n);
            Ir::verbatim(trim_start(text.as_str(), CharSet::LineBreaks))
        },
        NodePath::Laid => lower_laid(cx, n, Ghost(fuel)),
    }
}

pub fn lower_node(cx: LowerCtx, n: usize, Ghost(fuel): Ghost<nat>) -> (r: Ir)
    requires
        cx.ok(),
        room(cx.t, n as int, fuel),
    ensures
        r@ == node(cx, n as int, fuel),
    decreases fuel, 50int, 2int,
{
    let layout = lower_unchecked(cx, n, Ghost(fuel));
    check_block(cx, n, layout, Ghost(fuel))
}

} // verus!

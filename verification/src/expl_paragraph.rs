//! Paragraphs that hold expl3 code.

use vstd::prelude::*;

use crate::context::{fits, in_tree, part, room, tok_at, LowerCtx};
use crate::docs::{is_expl_syntax_off_command, is_syntax_off, run_carries_doc_margin, run_has_margin};
use crate::expl::{code, lower_expl_code};
use crate::flatten::gap_start;
use crate::gap::gap_end;
use crate::ir::{concat, verbatim, Ir, IrList, Layout};
use crate::lines::{join_lines, joined};
use crate::lower::{lower_stream, streamed};
use crate::prose::{
    dtx_run_reflows_safely, reflow_elements, reflowed, run_reflows_safely, source_of, ReflowKind,
};
use crate::syntax::{SyntaxKind, Tree};
use crate::text::{fully_guarded, strip_start, text_is_fully_guarded, trim_start, CharSet};

verus! {

// ---- runs ----------------------------------------------------------------------------------
//
// A paragraph is cut into runs, each all code or all text. White space between two runs decides
// what stands between them.

/// How many line feeds a text has.
pub open spec fn feeds(text: Seq<char>) -> int
    decreases text.len(),
{
    if text.len() == 0 {
        0
    } else {
        feeds(text.drop_last()) + if text.last() == '\n' {
            1int
        } else {
            0
        }
    }
}

/// Whether the elements from `lo` up to `hi` have two line feeds or more.
pub open spec fn feeds_between(t: &Tree, es: Seq<usize>, lo: int, hi: int) -> int
    decreases hi - lo,
{
    if hi <= lo || hi > es.len() || hi <= 0 {
        0
    } else {
        feeds_between(t, es, lo, hi - 1) + feeds(t.txt(es[hi - 1] as int))
    }
}

fn count_feeds(text: &str, start: usize) -> (r: usize)
    requires
        start <= 2,
    ensures
        r == (if start + feeds(text@) > 2 {
            2
        } else {
            start + feeds(text@)
        }),
{
    let n: usize = text.unicode_len();
    let mut count: usize = start;
    let mut i: usize = 0;
    assert(text@.take(0) =~= Seq::<char>::empty());
    while i < n
        invariant
            n == text@.len(),
            i <= n,
            count <= 2,
            start <= 2,
            feeds(text@.take(i as int)) >= 0,
            count == (if start + feeds(text@.take(i as int)) > 2 {
                2
            } else {
                start + feeds(text@.take(i as int))
            }),
        decreases n - i,
    {
        assert(text@.take(i + 1).drop_last() =~= text@.take(i as int));
        if text.get_char(i) == '\n' && count < 2 {
            count = count + 1;
        }
        i = i + 1;
    }
    assert(text@.take(n as int) =~= text@);
    count
}

proof fn lemma_feeds(text: Seq<char>)
    ensures
        feeds(text) >= 0,
    decreases text.len(),
{
    if text.len() > 0 {
        lemma_feeds(text.drop_last());
    }
}

proof fn lemma_feeds_between(t: &Tree, es: Seq<usize>, lo: int, hi: int)
    ensures
        feeds_between(t, es, lo, hi) >= 0,
    decreases hi - lo,
{
    if hi > lo && hi <= es.len() && hi > 0 {
        lemma_feeds_between(t, es, lo, hi - 1);
        lemma_feeds(t.txt(es[hi - 1] as int));
    }
}

/// Whether the elements from `lo` up to `hi` have an empty line among them.
fn is_blank_between(cx: LowerCtx, es: &Vec<usize>, lo: usize, hi: usize) -> (r: bool)
    requires
        in_tree(cx.t, es@),
        lo <= hi <= es@.len(),
    ensures
        r == (feeds_between(cx.t, es@, lo as int, hi as int) >= 2),
{
    let mut count: usize = 0;
    let mut i: usize = lo;
    while i < hi
        invariant
            in_tree(cx.t, es@),
            lo <= i <= hi <= es@.len(),
            count <= 2,
            count == (if feeds_between(cx.t, es@, lo as int, i as int) > 2 {
                2
            } else {
                feeds_between(cx.t, es@, lo as int, i as int)
            }),
        decreases hi - i,
    {
        proof {
            lemma_feeds(cx.t.txt(es@[i as int] as int));
            lemma_feeds_between(cx.t, es@, lo as int, i as int);
        }
        count = count_feeds(cx.t.text(es[i]), count);
        i = i + 1;
    }
    count >= 2
}

/// Where the run ends whose elements from `i` on are all code or all text.
pub open spec fn same_until(cx: LowerCtx, es: Seq<usize>, i: int, coded: bool) -> int
    decreases es.len() - i,
{
    if 0 <= i < es.len() && cx.expl_at(es[i] as int) == coded {
        same_until(cx, es, i + 1, coded)
    } else {
        i
    }
}

/// Where the blanks within a line from `i` on end.
pub open spec fn inline_blanks_end(t: &Tree, es: Seq<usize>, i: int) -> int
    decreases es.len() - i,
{
    if tok_at(t, es, i, SyntaxKind::Whitespace) && !t.txt(es[i] as int).contains('\r') && !t.txt(es[i] as int).contains(
        '\n',
    ) {
        inline_blanks_end(t, es, i + 1)
    } else {
        i
    }
}

/// Whether the last element between `lo` and `hi` other than white space ends the code.
pub open spec fn ends_code(t: &Tree, es: Seq<usize>, lo: int, hi: int) -> bool {
    let last = gap_start(t, es, hi);
    last > lo && is_syntax_off(t, es[last - 1] as int)
}

/// The end of a run with the comment on the line on which the code ends.
pub open spec fn with_comment(t: &Tree, es: Seq<usize>, lo: int, hi: int, coded: bool) -> int {
    let c = inline_blanks_end(t, es, hi);
    if coded && ends_code(t, es, lo, hi) && tok_at(t, es, c, SyntaxKind::Comment) {
        c + 1
    } else {
        hi
    }
}

/// The end of a run without the white space behind it.
pub open spec fn without_gap(t: &Tree, es: Seq<usize>, lo: int, hi: int) -> int {
    let end = gap_start(t, es, hi);
    if hi < es.len() && end > lo {
        end
    } else {
        hi
    }
}

/// Where the run that starts at `lo` ends.
pub open spec fn run_end(cx: LowerCtx, es: Seq<usize>, lo: int) -> int {
    let coded = cx.expl_at(es[lo] as int);
    without_gap(cx.t, es, lo, with_comment(cx.t, es, lo, same_until(cx, es, lo, coded), coded))
}

fn skip_inline_blanks(cx: LowerCtx, es: &Vec<usize>, start: usize) -> (r: usize)
    requires
        in_tree(cx.t, es@),
        start <= es@.len(),
    ensures
        r == inline_blanks_end(cx.t, es@, start as int),
        start <= r <= es@.len(),
{
    let mut i: usize = start;
    while i < es.len()
        invariant
            in_tree(cx.t, es@),
            start <= i <= es@.len(),
            inline_blanks_end(cx.t, es@, i as int) == inline_blanks_end(cx.t, es@, start as int),
        decreases es@.len() - i,
    {
        if !cx.t.token_is(es[i], SyntaxKind::Whitespace) || crate::text::contains_char(cx.t.text(es[i]), '\r')
            || crate::text::contains_char(cx.t.text(es[i]), '\n') {
            return i;
        }
        i = i + 1;
    }
    i
}

fn find_gap_start(cx: LowerCtx, es: &Vec<usize>, hi: usize) -> (r: usize)
    requires
        in_tree(cx.t, es@),
        hi <= es@.len(),
    ensures
        r == gap_start(cx.t, es@, hi as int),
        r <= hi,
{
    let mut end: usize = hi;
    while end > 0 && cx.t.is_gap(es[end - 1])
        invariant
            in_tree(cx.t, es@),
            end <= hi <= es@.len(),
            gap_start(cx.t, es@, end as int) == gap_start(cx.t, es@, hi as int),
        decreases end,
    {
        end = end - 1;
    }
    end
}

fn find_run_end(cx: LowerCtx, es: &Vec<usize>, lo: usize) -> (r: usize)
    requires
        cx.ok(),
        in_tree(cx.t, es@),
        lo < es@.len(),
    ensures
        r == run_end(cx, es@, lo as int),
        lo < r <= es@.len(),
{
    let coded = cx.in_expl3_region(es[lo]);
    let mut hi: usize = lo;
    while hi < es.len() && cx.in_expl3_region(es[hi]) == coded
        invariant
            cx.ok(),
            in_tree(cx.t, es@),
            lo < es@.len(),
            lo <= hi <= es@.len(),
            hi == lo ==> cx.expl_at(es@[lo as int] as int) == coded,
            same_until(cx, es@, hi as int, coded) == same_until(cx, es@, lo as int, coded),
        decreases es@.len() - hi,
    {
        hi = hi + 1;
    }
    if coded {
        let last: usize = find_gap_start(cx, es, hi);
        if last > lo && is_expl_syntax_off_command(cx, es[last - 1]) {
            let c: usize = skip_inline_blanks(cx, es, hi);
            if cx.token_at(es, c, SyntaxKind::Comment) {
                assert(c < es@.len());
                hi = c + 1;
            }
        }
    }
    if hi < es.len() {
        let end: usize = find_gap_start(cx, es, hi);
        if end > lo {
            hi = end;
        }
    }
    hi
}

/// The source text of the first `i` elements.
pub open spec fn sources(t: &Tree, es: Seq<usize>, i: int) -> Seq<char>
    decreases i,
{
    if i <= 0 || i > es.len() {
        Seq::empty()
    } else {
        sources(t, es, i - 1) + t.src(es[i - 1] as int)
    }
}

fn sources_of(cx: LowerCtx, es: &Vec<usize>) -> (r: String)
    requires
        cx.ok(),
        in_tree(cx.t, es@),
    ensures
        r@ == sources(cx.t, es@, es@.len() as int),
{
    let mut out = String::new();
    let mut i: usize = 0;
    assert(out@ =~= Seq::<char>::empty());
    while i < es.len()
        invariant
            cx.ok(),
            in_tree(cx.t, es@),
            i <= es@.len(),
            out@ == sources(cx.t, es@, i as int),
        decreases es@.len() - i,
    {
        let text = source_of(cx, es[i]);
        out.append(text.as_str());
        i = i + 1;
    }
    out
}

/// A run. Lines that are all guards stay as they are, code goes on its lines, and text is laid
/// out anew where its lines keep their margins.
pub open spec fn run_layout(cx: LowerCtx, es: Seq<usize>, coded: bool, fuel: nat) -> Layout
    decreases fuel, 97int, 0int,
{
    let text = sources(cx.t, es, es.len() as int);
    if coded {
        code(cx, es, true, fuel)
    } else if fully_guarded(text) {
        verbatim(strip_start(text, CharSet::LineBreaks))
    } else if cx.wrapping() && !run_has_margin(cx, es) {
        reflowed(cx, es, ReflowKind::Prose, fuel).0
    } else if cx.wrapping() && run_reflows_safely(cx, es, fuel) {
        reflowed(cx, es, ReflowKind::DtxProse, fuel).0
    } else {
        streamed(cx, es, fuel)
    }
}

fn lower_run(cx: LowerCtx, es: &Vec<usize>, coded: bool, Ghost(fuel): Ghost<nat>) -> (r: Ir)
    requires
        cx.ok(),
        fits(cx.t, es@, fuel),
    ensures
        r@ == run_layout(cx, es@, coded, fuel),
    decreases fuel, 97int, 0int,
{
    if coded {
        return lower_expl_code(cx, es, true, Ghost(fuel));
    }
    let text = sources_of(cx, es);
    if text_is_fully_guarded(text.as_str()) {
        Ir::verbatim(trim_start(text.as_str(), CharSet::LineBreaks))
    } else if cx.wraps_prose() && !run_carries_doc_margin(cx, es) {
        reflow_elements(cx, es, ReflowKind::Prose, Ghost(fuel))
    } else if cx.wraps_prose() && dtx_run_reflows_safely(cx, es, Ghost(fuel)) {
        reflow_elements(cx, es, ReflowKind::DtxProse, Ghost(fuel))
    } else {
        lower_stream(cx, es, Ghost(fuel))
    }
}

// ---- paragraphs ----------------------------------------------------------------------------

/// The runs from `i` on behind those in `lines`, each with the break before it.
pub open spec fn runs(cx: LowerCtx, es: Seq<usize>, i: int, lines: Seq<Layout>, seps: Seq<Layout>, fuel: nat) -> (
    Seq<Layout>,
    Seq<Layout>,
)
    decreases fuel, 98int, es.len() - i,
{
    let lo = if lines.len() > 0 {
        gap_end(cx.t, es, i)
    } else {
        i
    };
    if i < 0 || lo < i || lo >= es.len() {
        (lines, seps)
    } else {
        let hi = run_end(cx, es, lo);
        if lo < hi <= es.len() {
            let l = run_layout(cx, es.subrange(lo, hi), cx.expl_at(es[lo] as int), fuel);
            let sep = if feeds_between(cx.t, es, i, lo) >= 2 {
                Layout::EmptyLine
            } else {
                Layout::HardLine
            };
            if l is Nil {
                runs(cx, es, hi, lines, seps, fuel)
            } else {
                runs(cx, es, hi, lines.push(l), seps.push(sep), fuel)
            }
        } else {
            (lines, seps)
        }
    }
}

/// A paragraph that holds expl3 code.
pub open spec fn expl_paragraph(cx: LowerCtx, n: int, fuel: nat) -> Layout
    decreases fuel, 27int, 0int,
{
    if fuel == 0 {
        Layout::Nil
    } else {
        let (lines, seps) = runs(cx, cx.t.kids(n), 0, Seq::empty(), Seq::empty(), (fuel - 1) as nat);
        concat(joined(lines, seps))
    }
}

pub fn lower_expl_paragraph(cx: LowerCtx, n: usize, Ghost(fuel): Ghost<nat>) -> (r: Ir)
    requires
        cx.ok(),
        room(cx.t, n as int, fuel),
    ensures
        r@ == expl_paragraph(cx, n as int, fuel),
    decreases fuel, 27int, 0int,
{
    let ghost less = (fuel - 1) as nat;
    let es = cx.children(n);
    let mut lines = IrList::new();
    let mut seps = IrList::new();
    let ghost all = runs(cx, es@, 0, Seq::empty(), Seq::empty(), less);
    let mut i: usize = 0;
    while i < es.len()
        invariant
            cx.ok(),
            fuel > 0,
            less == fuel - 1,
            in_tree(cx.t, es@),
            fits(cx.t, es@, less),
            i <= es@.len(),
            lines@.len() == seps@.len(),
            runs(cx, es@, i as int, lines@, seps@, less) == all,
        decreases es@.len() - i,
    {
        let lo: usize = if !lines.is_empty() {
            let (_, end) = cx.consume_widened_gap_slice(&es, i);
            end
        } else {
            i
        };
        if lo >= es.len() {
            i = es.len();
        } else {
            let blank = is_blank_between(cx, &es, i, lo);
            let coded = cx.in_expl3_region(es[lo]);
            let hi: usize = find_run_end(cx, &es, lo);
            let run = part(&es, lo, hi);
            assert(fits(cx.t, run@, less));
            let ir = lower_run(cx, &run, coded, Ghost(less));
            if !ir.is_nil() {
                seps.push(
                    if blank {
                        Ir::EmptyLine
                    } else {
                        Ir::HardLine
                    },
                );
                lines.push(ir);
            }
            i = hi;
        }
    }
    join_lines(&lines, &seps)
}

} // verus!

//! The elements of a run, with the wrappers that mean nothing to its layout taken off.

use vstd::prelude::*;

use crate::context::{fits, gap_at, in_tree, part, room, LowerCtx};
use crate::gap::gap_end;
use crate::predicates::{command_is_inline_prose, inline_prose};
use crate::signatures::{ArgSpec, CommandSig, ContentKind};
use crate::syntax::{SyntaxKind, Tree};

verus! {

// ---- statements ----------------------------------------------------------------------------

/// The elements from `i` on, with the children of a statement in its place.
pub open spec fn without_statements(t: &Tree, es: Seq<usize>, i: int) -> Seq<usize>
    decreases es.len() - i,
{
    if i < 0 || i >= es.len() {
        Seq::empty()
    } else if t.node_is(es[i] as int, SyntaxKind::Statement) {
        t.kids(es[i] as int) + without_statements(t, es, i + 1)
    } else {
        seq![es[i]] + without_statements(t, es, i + 1)
    }
}

pub fn flatten_statements(cx: LowerCtx, es: &Vec<usize>, Ghost(fuel): Ghost<nat>) -> (r: Vec<usize>)
    requires
        cx.ok(),
        fits(cx.t, es@, fuel),
    ensures
        r@ == without_statements(cx.t, es@, 0),
        fits(cx.t, r@, fuel),
{
    let mut out: Vec<usize> = Vec::new();
    let mut i: usize = 0;
    while i < es.len()
        invariant
            cx.ok(),
            i <= es@.len(),
            fits(cx.t, es@, fuel),
            fits(cx.t, out@, fuel),
            out@ + without_statements(cx.t, es@, i as int) == without_statements(cx.t, es@, 0),
        decreases es@.len() - i,
    {
        let ghost before = out@;
        let ghost rest = without_statements(cx.t, es@, i + 1);
        assert(room(cx.t, es@[i as int] as int, fuel));
        if cx.t.is_node(es[i], SyntaxKind::Statement) {
            let mut kids = cx.children(es[i]);
            let ghost ks = kids@;
            out.append(&mut kids);
            assert(out@ =~= before + ks);
            assert(out@ + rest =~= before + (ks + rest));
            assert(fits(cx.t, out@, fuel)) by {
                assert forall|k: int| 0 <= k < out@.len() implies room(cx.t, #[trigger] out@[k] as int, fuel) by {
                    if k >= before.len() {
                        assert(out@[k] == ks[k - before.len()]);
                    } else {
                        assert(out@[k] == before[k]);
                    }
                }
            }
        } else {
            out.push(es[i]);
            assert(out@ + rest =~= before + (seq![es@[i as int]] + rest));
        }
        i = i + 1;
    }
    assert(out@ + without_statements(cx.t, es@, es@.len() as int) =~= out@);
    out
}

// ---- margins -------------------------------------------------------------------------------

/// The elements from `i` on without the margins and the blanks behind them. `after` holds
/// behind a margin.
pub open spec fn unmargined(t: &Tree, es: Seq<usize>, i: int, after: bool) -> Seq<usize>
    decreases es.len() - i,
{
    if i < 0 || i >= es.len() {
        Seq::empty()
    } else if t.tok_is(es[i] as int, SyntaxKind::DocMargin) {
        unmargined(t, es, i + 1, true)
    } else if after && t.tok_is(es[i] as int, SyntaxKind::Whitespace) {
        unmargined(t, es, i + 1, after)
    } else {
        seq![es[i]] + unmargined(t, es, i + 1, false)
    }
}

/// The elements, without their margins in a region of documentation.
pub open spec fn framing_stripped(cx: LowerCtx, es: Seq<usize>) -> Seq<usize> {
    if cx.in_doc_region {
        unmargined(cx.t, es, 0, false)
    } else {
        es
    }
}

pub fn strip_virtual_dtx_framing(cx: LowerCtx, es: Vec<usize>, Ghost(fuel): Ghost<nat>) -> (r: Vec<usize>)
    requires
        fits(cx.t, es@, fuel),
    ensures
        r@ == framing_stripped(cx, es@),
        fits(cx.t, r@, fuel),
{
    if !cx.in_doc_region {
        return es;
    }
    let mut out: Vec<usize> = Vec::new();
    let mut after = false;
    let mut i: usize = 0;
    while i < es.len()
        invariant
            i <= es@.len(),
            fits(cx.t, es@, fuel),
            fits(cx.t, out@, fuel),
            out@ + unmargined(cx.t, es@, i as int, after) == unmargined(cx.t, es@, 0, false),
        decreases es@.len() - i,
    {
        let e: usize = es[i];
        assert(room(cx.t, es@[i as int] as int, fuel));
        if cx.t.token_is(e, SyntaxKind::DocMargin) {
            after = true;
        } else if after && cx.t.token_is(e, SyntaxKind::Whitespace) {
        } else {
            let ghost before = out@;
            let ghost rest = unmargined(cx.t, es@, i + 1, false);
            out.push(e);
            assert(out@ + rest =~= before + (seq![e] + rest));
            after = false;
        }
        i = i + 1;
    }
    assert(out@ + unmargined(cx.t, es@, es@.len() as int, after) =~= out@);
    out
}

/// The elements, without their margins in a cell of documentation.
pub open spec fn cell_elements(cx: LowerCtx, es: Seq<usize>) -> Seq<usize> {
    if cx.in_cell {
        framing_stripped(cx, es)
    } else {
        es
    }
}

pub fn alignment_cell_elements(cx: LowerCtx, es: Vec<usize>, Ghost(fuel): Ghost<nat>) -> (r: Vec<usize>)
    requires
        fits(cx.t, es@, fuel),
    ensures
        r@ == cell_elements(cx, es@),
        fits(cx.t, r@, fuel),
{
    if cx.in_cell {
        strip_virtual_dtx_framing(cx, es, Ghost(fuel))
    } else {
        es
    }
}

// ---- delimiters ----------------------------------------------------------------------------

/// A delimited list: its delimiters and what stands between them.
pub struct Delimited {
    pub open: Option<usize>,
    pub close: Option<usize>,
    pub body: Vec<usize>,
}

/// The first opening delimiter from `i` on.
pub open spec fn opener(t: &Tree, es: Seq<usize>, open: SyntaxKind, i: int) -> Option<usize>
    decreases es.len() - i,
{
    if i < 0 || i >= es.len() {
        None
    } else if t.tok_is(es[i] as int, open) {
        Some(es[i])
    } else {
        opener(t, es, open, i + 1)
    }
}

/// The last closing delimiter before `i` that is not the opening one.
pub open spec fn closer(t: &Tree, es: Seq<usize>, open: SyntaxKind, close: SyntaxKind, i: int) -> Option<usize>
    decreases i,
{
    if i <= 0 || i > es.len() {
        None
    } else if t.tok_is(es[i - 1] as int, close) && !opens(t, es, open, i - 1) {
        Some(es[i - 1])
    } else {
        closer(t, es, open, close, i - 1)
    }
}

/// Whether element `i` is the first opening delimiter.
pub open spec fn opens(t: &Tree, es: Seq<usize>, open: SyntaxKind, i: int) -> bool {
    0 <= i < es.len() && t.tok_is(es[i] as int, open) && forall|j: int|
        0 <= j < i ==> !t.tok_is(#[trigger] es[j] as int, open)
}

/// What stands before `i` other than the first opening delimiter and the closing ones.
pub open spec fn inner(t: &Tree, es: Seq<usize>, open: SyntaxKind, close: SyntaxKind, i: int) -> Seq<usize>
    decreases i,
{
    if i <= 0 || i > es.len() {
        Seq::empty()
    } else if opens(t, es, open, i - 1) || t.tok_is(es[i - 1] as int, close) {
        inner(t, es, open, close, i - 1)
    } else {
        inner(t, es, open, close, i - 1).push(es[i - 1])
    }
}

pub fn split_delimited(cx: LowerCtx, es: &Vec<usize>, open: SyntaxKind, close: SyntaxKind, Ghost(fuel): Ghost<nat>) -> (r:
    Delimited)
    requires
        fits(cx.t, es@, fuel),
    ensures
        r.open == opener(cx.t, es@, open, 0),
        r.close == closer(cx.t, es@, open, close, es@.len() as int),
        r.body@ == inner(cx.t, es@, open, close, es@.len() as int),
        fits(cx.t, r.body@, fuel),
        r.open matches Some(e) ==> e < cx.t.n(),
        r.close matches Some(e) ==> e < cx.t.n(),
{
    let mut first: Option<usize> = None;
    let mut last: Option<usize> = None;
    let mut body: Vec<usize> = Vec::new();
    let mut i: usize = 0;
    while i < es.len()
        invariant
            i <= es@.len(),
            fits(cx.t, es@, fuel),
            fits(cx.t, body@, fuel),
            first matches Some(e) ==> e < cx.t.n() && first == opener(cx.t, es@, open, 0),
            first is None ==> opener(cx.t, es@, open, 0) == opener(cx.t, es@, open, i as int),
            first is None <==> forall|j: int| 0 <= j < i ==> !cx.t.tok_is(#[trigger] es@[j] as int, open),
            last == closer(cx.t, es@, open, close, i as int),
            last matches Some(e) ==> e < cx.t.n(),
            body@ == inner(cx.t, es@, open, close, i as int),
        decreases es@.len() - i,
    {
        let e: usize = es[i];
        assert(room(cx.t, es@[i as int] as int, fuel));
        if cx.t.token_is(e, open) && first.is_none() {
            assert(opens(cx.t, es@, open, i as int));
            first = Some(e);
        } else {
            assert(!opens(cx.t, es@, open, i as int));
            if cx.t.token_is(e, close) {
                last = Some(e);
            } else {
                body.push(e);
            }
        }
        i = i + 1;
    }
    Delimited { open: first, close: last, body }
}

/// Where the white space at the end of the first `hi` elements starts.
pub open spec fn gap_start(t: &Tree, es: Seq<usize>, hi: int) -> int
    decreases hi,
{
    if gap_at(t, es, hi - 1) {
        gap_start(t, es, hi - 1)
    } else {
        hi
    }
}

pub proof fn lemma_gap_start(t: &Tree, es: Seq<usize>, hi: int)
    requires
        0 <= hi <= es.len(),
    ensures
        0 <= gap_start(t, es, hi) <= hi,
        !gap_at(t, es, gap_start(t, es, hi) - 1),
    decreases hi,
{
    if gap_at(t, es, hi - 1) {
        lemma_gap_start(t, es, hi - 1);
    }
}

/// The elements without the white space at both ends.
pub open spec fn solid_core(t: &Tree, es: Seq<usize>) -> Seq<usize> {
    let lo = gap_end(t, es, 0);
    let hi = gap_start(t, es, es.len() as int);
    if lo <= hi {
        es.subrange(lo, hi)
    } else {
        Seq::empty()
    }
}

pub fn trim_gaps(cx: LowerCtx, es: &Vec<usize>, Ghost(fuel): Ghost<nat>) -> (r: Vec<usize>)
    requires
        fits(cx.t, es@, fuel),
    ensures
        r@ == solid_core(cx.t, es@),
        fits(cx.t, r@, fuel),
{
    let mut lo: usize = 0;
    while cx.is_gap_at(es, lo)
        invariant
            in_tree(cx.t, es@),
            lo <= es@.len(),
            gap_end(cx.t, es@, lo as int) == gap_end(cx.t, es@, 0),
        decreases es@.len() - lo,
    {
        assert(lo < es.len());
        lo = lo + 1;
    }
    let mut hi: usize = es.len();
    while hi > 0 && cx.is_gap_at(es, hi - 1)
        invariant
            in_tree(cx.t, es@),
            hi <= es@.len(),
            gap_start(cx.t, es@, hi as int) == gap_start(cx.t, es@, es@.len() as int),
        decreases hi,
    {
        hi = hi - 1;
    }
    if lo <= hi {
        part(es, lo, hi)
    } else {
        let r: Vec<usize> = Vec::new();
        assert(r@ =~= Seq::<usize>::empty());
        r
    }
}

// ---- running text in commands --------------------------------------------------------------

/// The declared argument that a group fills.
pub open spec fn slot_of(t: &Tree, args: Seq<ArgSpec>, e: int) -> Option<ArgSpec> {
    match t.elems@[e].facts.fills {
        Some(k) => if k < args.len() {
            Some(args[k as int])
        } else {
            None
        },
        None => None,
    }
}

pub fn declared_slot(cx: LowerCtx, args: &Vec<ArgSpec>, e: usize) -> (r: Option<ArgSpec>)
    requires
        e < cx.t.n(),
    ensures
        r == slot_of(cx.t, args@, e as int),
{
    match cx.t.elems[e].facts.fills {
        Some(k) => if k < args.len() {
            Some(args[k])
        } else {
            None
        },
        None => None,
    }
}

/// Whether the last element of a list is a comment.
pub open spec fn ends_in_comment(t: &Tree, es: Seq<usize>) -> bool {
    es.len() > 0 && t.tok_is(es.last() as int, SyntaxKind::Comment)
}

/// Whether the element is an argument in braces or brackets.
pub open spec fn is_arg(t: &Tree, e: int) -> bool {
    t.node_is(e, SyntaxKind::Group) || t.node_is(e, SyntaxKind::Optional)
}

pub fn is_argument(cx: LowerCtx, e: usize) -> (r: bool)
    requires
        e < cx.t.n(),
    ensures
        r == is_arg(cx.t, e as int),
{
    cx.t.is_node(e, SyntaxKind::Group) || cx.t.is_node(e, SyntaxKind::Optional)
}

/// The delimiters of an argument.
pub open spec fn open_kind(t: &Tree, e: int) -> SyntaxKind {
    if t.k(e) == SyntaxKind::Optional {
        SyntaxKind::LBracket
    } else {
        SyntaxKind::LBrace
    }
}

pub open spec fn close_kind(t: &Tree, e: int) -> SyntaxKind {
    if t.k(e) == SyntaxKind::Optional {
        SyntaxKind::RBracket
    } else {
        SyntaxKind::RBrace
    }
}

pub fn delimiters(cx: LowerCtx, e: usize) -> (r: (SyntaxKind, SyntaxKind))
    requires
        e < cx.t.n(),
    ensures
        r == (open_kind(cx.t, e as int), close_kind(cx.t, e as int)),
{
    if cx.t.kind(e) == SyntaxKind::Optional {
        (SyntaxKind::LBracket, SyntaxKind::RBracket)
    } else {
        (SyntaxKind::LBrace, SyntaxKind::RBrace)
    }
}

/// One element, or none.
pub open spec fn maybe(e: Option<usize>) -> Seq<usize> {
    match e {
        Some(e) => seq![e],
        None => Seq::empty(),
    }
}

/// What is behind once the elements from `i` on have been added to `out`: the running text in a
/// command of running text stands in its place. With `glue`, white space before an argument
/// that the command takes is dropped.
pub open spec fn prose_flat(cx: LowerCtx, es: Seq<usize>, i: int, glue: bool, out: Seq<usize>, fuel: nat) -> Seq<usize>
    decreases fuel, 2int, es.len() - i,
{
    if i < 0 || i >= es.len() {
        out
    } else if cx.t.node_is(es[i] as int, SyntaxKind::Command) && inline_prose(cx.sig(es[i] as int)) {
        prose_flat(cx, es, i + 1, glue, command_flat(cx, es[i] as int, glue, out, fuel), fuel)
    } else {
        prose_flat(cx, es, i + 1, glue, out.push(es[i]), fuel)
    }
}

/// The same for the children of one command.
pub open spec fn command_flat(cx: LowerCtx, n: int, glue: bool, out: Seq<usize>, fuel: nat) -> Seq<usize>
    decreases fuel, 1int, 0int,
{
    match cx.sig(n) {
        Some(sig) => if fuel == 0 {
            out
        } else {
            args_flat(cx, sig, cx.t.kids(n), 0, glue, out, Seq::empty(), (fuel - 1) as nat)
        },
        None => out.push(n as usize),
    }
}

/// The same for the children of a command from `i` on. White space is held back in `pending`.
pub open spec fn args_flat(
    cx: LowerCtx,
    sig: CommandSig,
    es: Seq<usize>,
    i: int,
    glue: bool,
    out: Seq<usize>,
    pending: Seq<usize>,
    fuel: nat,
) -> Seq<usize>
    decreases fuel, 4int, es.len() - i,
{
    if i < 0 || i >= es.len() {
        out + pending
    } else {
        let e = es[i] as int;
        if cx.t.gap(e) {
            args_flat(cx, sig, es, i + 1, glue, out, pending.push(es[i]), fuel)
        } else if is_arg(cx.t, e) {
            let slot = slot_of(cx.t, sig.args@, e);
            let held = if slot is None || ends_in_comment(cx.t, out) || !glue {
                out + pending
            } else {
                out
            };
            let grown = if slot is Some && slot->0.content == ContentKind::Prose {
                group_flat(cx, e, glue, held, fuel)
            } else {
                held.push(es[i])
            };
            args_flat(cx, sig, es, i + 1, glue, grown, Seq::empty(), fuel)
        } else {
            args_flat(cx, sig, es, i + 1, glue, (out + pending).push(es[i]), Seq::empty(), fuel)
        }
    }
}

/// The same for an argument of running text: its delimiters, and what stands between them
/// without the white space at both ends.
pub open spec fn group_flat(cx: LowerCtx, e: int, glue: bool, out: Seq<usize>, fuel: nat) -> Seq<usize>
    decreases fuel, 3int, 0int,
{
    if fuel == 0 {
        out
    } else {
        let es = cx.t.kids(e);
        let (open, close) = (open_kind(cx.t, e), close_kind(cx.t, e));
        let body = solid_core(cx.t, inner(cx.t, es, open, close, es.len() as int));
        out + maybe(opener(cx.t, es, open, 0)) + prose_flat(cx, body, 0, glue, Seq::empty(), (fuel - 1) as nat)
            + maybe(closer(cx.t, es, open, close, es.len() as int))
    }
}

pub fn flatten_inline_prose(cx: LowerCtx, es: &Vec<usize>, glue: bool, Ghost(fuel): Ghost<nat>) -> (r: Vec<usize>)
    requires
        cx.ok(),
        fits(cx.t, es@, fuel),
    ensures
        r@ == prose_flat(cx, es@, 0, glue, Seq::empty(), fuel),
        fits(cx.t, r@, fuel),
    decreases fuel, 2int, 0int,
{
    let mut out: Vec<usize> = Vec::new();
    assert(out@ =~= Seq::<usize>::empty());
    let mut i: usize = 0;
    while i < es.len()
        invariant
            cx.ok(),
            i <= es@.len(),
            fits(cx.t, es@, fuel),
            fits(cx.t, out@, fuel),
            prose_flat(cx, es@, i as int, glue, out@, fuel) == prose_flat(cx, es@, 0, glue, Seq::empty(), fuel),
        decreases es@.len() - i,
    {
        let e: usize = es[i];
        assert(room(cx.t, es@[i as int] as int, fuel));
        if cx.t.is_node(e, SyntaxKind::Command) && command_is_inline_prose(cx, e) {
            expand_inline_prose(cx, e, glue, &mut out, Ghost(fuel));
        } else {
            out.push(e);
        }
        i = i + 1;
    }
    out
}

fn expand_inline_prose(cx: LowerCtx, n: usize, glue: bool, out: &mut Vec<usize>, Ghost(fuel): Ghost<nat>)
    requires
        cx.ok(),
        room(cx.t, n as int, fuel),
        fits(cx.t, old(out)@, fuel),
    ensures
        final(out)@ == command_flat(cx, n as int, glue, old(out)@, fuel),
        fits(cx.t, final(out)@, fuel),
    decreases fuel, 1int, 0int,
{
    let sig = match cx.command_sig(n) {
        Some(sig) => sig,
        None => {
            out.push(n);
            return;
        },
    };
    let es = cx.children(n);
    let ghost less = (fuel - 1) as nat;
    let ghost before = out@;
    let mut pending: Vec<usize> = Vec::new();
    assert(pending@ =~= Seq::<usize>::empty());
    let mut i: usize = 0;
    while i < es.len()
        invariant
            cx.ok(),
            fuel > 0,
            less == fuel - 1,
            i <= es@.len(),
            fits(cx.t, es@, less),
            fits(cx.t, out@, fuel),
            fits(cx.t, pending@, fuel),
            args_flat(cx, *sig, es@, i as int, glue, out@, pending@, less) == args_flat(
                cx,
                *sig,
                es@,
                0,
                glue,
                before,
                Seq::empty(),
                less,
            ),
        decreases es@.len() - i,
    {
        let e: usize = es[i];
        assert(room(cx.t, es@[i as int] as int, less));
        let ghost was = out@;
        let ghost held = pending@;
        if cx.t.is_gap(e) {
            pending.push(e);
        } else if is_argument(cx, e) {
            let slot = declared_slot(cx, &sig.args, e);
            let n_out: usize = out.len();
            let after_comment = n_out > 0 && cx.t.token_is(out[n_out - 1], SyntaxKind::Comment);
            let prose = match slot {
                Some(spec) => spec.content == ContentKind::Prose,
                None => false,
            };
            if slot.is_none() || after_comment || !glue {
                out.append(&mut pending);
                assert(out@ =~= was + held);
            }
            pending = Vec::new();
            assert(pending@ =~= Seq::<usize>::empty());
            if prose {
                splice_prose_group(cx, e, glue, out, Ghost(less));
            } else {
                out.push(e);
            }
        } else {
            out.append(&mut pending);
            assert(out@ =~= was + held);
            pending = Vec::new();
            assert(pending@ =~= Seq::<usize>::empty());
            out.push(e);
        }
        i = i + 1;
    }
    let ghost was = out@;
    let ghost held = pending@;
    out.append(&mut pending);
    assert(out@ =~= was + held);
}

fn splice_prose_group(cx: LowerCtx, e: usize, glue: bool, out: &mut Vec<usize>, Ghost(fuel): Ghost<nat>)
    requires
        cx.ok(),
        room(cx.t, e as int, fuel),
        fits(cx.t, old(out)@, fuel + 1),
    ensures
        final(out)@ == group_flat(cx, e as int, glue, old(out)@, fuel),
        fits(cx.t, final(out)@, fuel + 1),
    decreases fuel, 3int, 0int,
{
    let es = cx.children(e);
    let (open, close) = delimiters(cx, e);
    let ghost less = (fuel - 1) as nat;
    let parts = split_delimited(cx, &es, open, close, Ghost(less));
    let body = trim_gaps(cx, &parts.body, Ghost(less));
    let ghost before = out@;
    proof {
        lemma_delimiters_fit(cx.t, es@, open, close, less);
    }
    if let Some(o) = parts.open {
        out.push(o);
    }
    assert(out@ =~= before + maybe(parts.open));
    let mut inside = flatten_inline_prose(cx, &body, glue, Ghost(less));
    let ghost was = out@;
    let ghost middle = inside@;
    out.append(&mut inside);
    assert(out@ =~= was + middle);
    if let Some(c) = parts.close {
        out.push(c);
    }
    assert(out@ =~= was + middle + maybe(parts.close));
}

proof fn lemma_delimiters_fit(t: &Tree, es: Seq<usize>, open: SyntaxKind, close: SyntaxKind, fuel: nat)
    requires
        fits(t, es, fuel),
    ensures
        opener(t, es, open, 0) matches Some(e) ==> room(t, e as int, fuel),
        closer(t, es, open, close, es.len() as int) matches Some(e) ==> room(t, e as int, fuel),
{
    lemma_opener_fits(t, es, open, 0, fuel);
    lemma_closer_fits(t, es, open, close, es.len() as int, fuel);
}

proof fn lemma_opener_fits(t: &Tree, es: Seq<usize>, open: SyntaxKind, i: int, fuel: nat)
    requires
        fits(t, es, fuel),
    ensures
        opener(t, es, open, i) matches Some(e) ==> room(t, e as int, fuel),
    decreases es.len() - i,
{
    if 0 <= i < es.len() && !t.tok_is(es[i] as int, open) {
        lemma_opener_fits(t, es, open, i + 1, fuel);
    }
}

proof fn lemma_closer_fits(t: &Tree, es: Seq<usize>, open: SyntaxKind, close: SyntaxKind, i: int, fuel: nat)
    requires
        fits(t, es, fuel),
    ensures
        closer(t, es, open, close, i) matches Some(e) ==> room(t, e as int, fuel),
    decreases i,
{
    if 0 < i <= es.len() && !(t.tok_is(es[i - 1] as int, close) && !opens(t, es, open, i - 1)) {
        lemma_closer_fits(t, es, open, close, i - 1, fuel);
    }
}

} // verus!

//! Conditionals.

use vstd::prelude::*;

use crate::context::{fits, in_tree, part, room, LowerCtx};
use crate::docs::{doc_paragraph, is_dtx_doc_paragraph};
use crate::flatten::{gap_start, lemma_gap_start};
use crate::gap::{gap_end, gap_of, lemma_gap_end, Gap, Trivia};
use crate::ir::{concat, concat2, forces_break, space, verbatim, Ir, IrList, Layout};
use crate::lower::{lower_node, lower_stream, node, streamed};
use crate::prose::{reflow_elements, reflowed, ReflowKind};
use crate::syntax::{SyntaxKind, Tree};

verus! {

// ---- branches ------------------------------------------------------------------------------

/// What a branch holds, without the white space at its end.
pub open spec fn branch_elements(t: &Tree, n: int) -> Seq<usize> {
    t.kids(n).subrange(0, gap_start(t, t.kids(n), t.kids(n).len() as int))
}

/// What separates a branch from what follows it.
pub open spec fn branch_gap(t: &Tree, n: int) -> Trivia {
    let es = branch_elements(t, n);
    if es.len() > 0 && t.tok_is(es.last() as int, SyntaxKind::Comment) {
        Trivia::Comment
    } else if es.len() < t.kids(n).len() {
        Trivia::Space(seq![' '])
    } else {
        Trivia::Glued
    }
}

pub fn split_branch_gap(cx: LowerCtx, n: usize) -> (r: (Vec<usize>, Gap))
    requires
        cx.ok(),
        n < cx.t.n(),
    ensures
        r.0@ == branch_elements(cx.t, n as int),
        r.1@ == branch_gap(cx.t, n as int),
        forall|fuel: nat| #[trigger] room(cx.t, n as int, fuel) ==> fits(cx.t, r.0@, fuel),
{
    let all = cx.children(n);
    let mut hi: usize = all.len();
    proof {
        lemma_gap_start(cx.t, all@, all@.len() as int);
    }
    while hi > 0 && cx.t.is_gap(all[hi - 1])
        invariant
            in_tree(cx.t, all@),
            hi <= all@.len(),
            gap_start(cx.t, all@, hi as int) == gap_start(cx.t, all@, all@.len() as int),
        decreases hi,
    {
        hi = hi - 1;
    }
    let es = part(&all, 0, hi);
    let gap = if hi > 0 && cx.t.token_is(all[hi - 1], SyntaxKind::Comment) {
        Gap::Comment
    } else if hi < all.len() {
        Gap::space()
    } else {
        Gap::Glued
    };
    assert forall|fuel: nat| #[trigger] room(cx.t, n as int, fuel) implies fits(cx.t, es@, fuel) by {
        assert(fits(cx.t, all@, fuel));
    }
    (es, gap)
}

/// Whether the text of a conditional is laid out anew: it is where the conditional stands in a
/// paragraph, and nothing is decided where that is documentation.
pub open spec fn interior_reflows(t: &Tree, n: int) -> Option<bool>
    decreases n,
{
    if n <= 0 || t.up(n) < 0 || t.up(n) >= n {
        Some(false)
    } else {
        let p = t.up(n);
        if t.k(p) == SyntaxKind::Conditional || t.k(p) == SyntaxKind::ConditionalBranch {
            interior_reflows(t, p)
        } else if t.k(p) == SyntaxKind::Paragraph {
            if doc_paragraph(t, p) {
                None
            } else {
                Some(true)
            }
        } else {
            Some(false)
        }
    }
}

pub fn conditional_interior_reflows(cx: LowerCtx, n: usize) -> (r: Option<bool>)
    requires
        cx.ok(),
        n < cx.t.n(),
    ensures
        r == interior_reflows(cx.t, n as int),
{
    proof {
        reveal(LowerCtx::ok);
    }
    let mut i: usize = n;
    while i > 0
        invariant
            cx.ok(),
            cx.t.wf(),
            i < cx.t.n(),
            interior_reflows(cx.t, i as int) == interior_reflows(cx.t, n as int),
        decreases i,
    {
        let p: usize = cx.t.parent(i);
        assert(p < i);
        let kind = cx.t.kind(p);
        if kind == SyntaxKind::Conditional || kind == SyntaxKind::ConditionalBranch {
            i = p;
        } else if kind == SyntaxKind::Paragraph {
            return if is_dtx_doc_paragraph(cx, p) {
                None
            } else {
                Some(true)
            };
        } else {
            return Some(false);
        }
    }
    Some(false)
}

// ---- the parts of a conditional ------------------------------------------------------------

/// The parts of a conditional, as far as they have been seen.
#[verifier::ext_equal]
pub struct Branches {
    pub leading: Seq<usize>,
    pub branches: Seq<usize>,
    pub closer: Option<usize>,
}

/// The parts that the children before `i` come to. A conditional is a prefix, its branches and
/// one closing command; any other order has no parts.
pub open spec fn branches_before(t: &Tree, es: Seq<usize>, i: int) -> Option<Branches>
    decreases i,
{
    if i <= 0 || i > es.len() {
        Some(Branches { leading: Seq::empty(), branches: Seq::empty(), closer: None })
    } else {
        match branches_before(t, es, i - 1) {
            None => None,
            Some(s) => {
                let e = es[i - 1];
                if t.node_is(e as int, SyntaxKind::ConditionalBranch) {
                    if s.closer is Some {
                        None
                    } else {
                        Some(Branches { branches: s.branches.push(e), ..s })
                    }
                } else if t.node_is(e as int, SyntaxKind::Command) && s.branches.len() > 0 {
                    if s.closer is Some {
                        None
                    } else {
                        Some(Branches { closer: Some(e), ..s })
                    }
                } else if s.branches.len() == 0 {
                    Some(Branches { leading: s.leading.push(e), ..s })
                } else {
                    None
                }
            },
        }
    }
}

pub open spec fn conditional_parts(t: &Tree, n: int) -> Option<Branches> {
    match branches_before(t, t.kids(n), t.kids(n).len() as int) {
        Some(s) => if s.closer is Some {
            Some(s)
        } else {
            None
        },
        None => None,
    }
}

pub struct ConditionalParts {
    pub leading: Vec<usize>,
    pub branches: Vec<usize>,
    pub closer: usize,
}

proof fn lemma_no_parts(t: &Tree, es: Seq<usize>, i: int, j: int)
    requires
        0 <= i <= j <= es.len(),
        branches_before(t, es, i) is None,
    ensures
        branches_before(t, es, j) is None,
    decreases j - i,
{
    if i < j {
        lemma_no_parts(t, es, i, j - 1);
    }
}

pub fn split_conditional(cx: LowerCtx, n: usize, Ghost(fuel): Ghost<nat>) -> (r: Option<ConditionalParts>)
    requires
        cx.ok(),
        room(cx.t, n as int, fuel),
    ensures
        fuel > 0,
        r is Some == conditional_parts(cx.t, n as int) is Some,
        r matches Some(p) ==> conditional_parts(cx.t, n as int) == Some(
            Branches { leading: p.leading@, branches: p.branches@, closer: Some(p.closer) },
        ) && fits(cx.t, p.leading@, (fuel - 1) as nat) && fits(cx.t, p.branches@, (fuel - 1) as nat) && room(
            cx.t,
            p.closer as int,
            (fuel - 1) as nat,
        ),
{
    let ghost less = (fuel - 1) as nat;
    let es = cx.children(n);
    let mut leading: Vec<usize> = Vec::new();
    let mut branches: Vec<usize> = Vec::new();
    let mut closer: Option<usize> = None;
    assert(leading@ =~= Seq::<usize>::empty());
    assert(branches@ =~= Seq::<usize>::empty());
    let mut i: usize = 0;
    while i < es.len()
        invariant
            es@ == cx.t.kids(n as int),
            in_tree(cx.t, es@),
            fits(cx.t, es@, less),
            fits(cx.t, leading@, less),
            fits(cx.t, branches@, less),
            closer matches Some(c) ==> room(cx.t, c as int, less),
            i <= es@.len(),
            branches_before(cx.t, es@, i as int) == Some(
                Branches { leading: leading@, branches: branches@, closer },
            ),
            fuel > 0,
        decreases es@.len() - i,
    {
        let e: usize = es[i];
        assert(room(cx.t, es@[i as int] as int, less));
        let ghost next = i + 1;
        if cx.t.is_node(e, SyntaxKind::ConditionalBranch) {
            if closer.is_some() {
                proof {
                    lemma_no_parts(cx.t, es@, next, es@.len() as int);
                }
                return None;
            }
            branches.push(e);
        } else if cx.t.is_node(e, SyntaxKind::Command) && branches.len() > 0 {
            if closer.is_some() {
                proof {
                    lemma_no_parts(cx.t, es@, next, es@.len() as int);
                }
                return None;
            }
            closer = Some(e);
        } else if branches.len() == 0 {
            leading.push(e);
        } else {
            proof {
                lemma_no_parts(cx.t, es@, next, es@.len() as int);
            }
            return None;
        }
        i = i + 1;
    }
    match closer {
        Some(closer) => Some(ConditionalParts { leading, branches, closer }),
        None => None,
    }
}

// ---- layout --------------------------------------------------------------------------------

/// The elements on one line, behind `out`. Comments, empty lines and pieces with lines of their
/// own have no such form.
pub open spec fn flat_elements(cx: LowerCtx, es: Seq<usize>, i: int, out: Seq<Layout>, fuel: nat) -> Option<Seq<Layout>>
    decreases fuel, 63int, es.len() - i,
{
    if i < 0 || i >= es.len() {
        Some(out)
    } else {
        proof {
            lemma_gap_end(cx.t, es, i);
        }
        let e = es[i] as int;
        if cx.t.gap(e) {
            let gap = gap_of(cx.t, es, i);
            if gap is Blank {
                None
            } else {
                flat_elements(cx, es, gap_end(cx.t, es, i), out.push(verbatim(gap.flat())), fuel)
            }
        } else if cx.t.tok_is(e, SyntaxKind::Comment) {
            None
        } else if cx.t.tok(e) {
            flat_elements(cx, es, i + 1, out.push(verbatim(cx.t.txt(e))), fuel)
        } else {
            let l = node(cx, e, fuel);
            if forces_break(l) {
                None
            } else {
                flat_elements(cx, es, i + 1, out.push(l), fuel)
            }
        }
    }
}

pub fn collapse_conditional_elements(cx: LowerCtx, es: &Vec<usize>, start: IrList, Ghost(fuel): Ghost<nat>) -> (r: Option<
    IrList,
>)
    requires
        cx.ok(),
        fits(cx.t, es@, fuel),
    ensures
        r is Some == flat_elements(cx, es@, 0, start@, fuel) is Some,
        r matches Some(x) ==> flat_elements(cx, es@, 0, start@, fuel) == Some(x@),
    decreases fuel, 63int, 0int,
{
    let ghost all = flat_elements(cx, es@, 0, start@, fuel);
    let mut out = start;
    let mut i: usize = 0;
    while i < es.len()
        invariant
            cx.ok(),
            fits(cx.t, es@, fuel),
            i <= es@.len(),
            all == flat_elements(cx, es@, 0, start@, fuel),
            flat_elements(cx, es@, i as int, out@, fuel) == all,
        decreases es@.len() - i,
    {
        let e: usize = es[i];
        assert(room(cx.t, es@[i as int] as int, fuel));
        if cx.t.is_gap(e) {
            let (gap, end) = cx.consume_gap(es, i);
            if gap.is_blank() {
                return None;
            }
            out.push(Ir::verbatim(gap.flat()));
            i = end;
        } else if cx.t.token_is(e, SyntaxKind::Comment) {
            return None;
        } else if cx.t.is_token(e) {
            out.push(Ir::verbatim(cx.t.text(e)));
            i = i + 1;
        } else {
            let ir = lower_node(cx, e, Ghost(fuel));
            if ir.contains_forced_break() {
                return None;
            }
            out.push(ir);
            i = i + 1;
        }
    }
    Some(out)
}

/// The branches from `i` on, on one line behind `out`.
pub open spec fn flat_branches(cx: LowerCtx, bs: Seq<usize>, i: int, out: Seq<Layout>, fuel: nat) -> Option<Seq<Layout>>
    decreases fuel, 64int, bs.len() - i,
{
    if i < 0 || i >= bs.len() {
        Some(out)
    } else {
        match flat_elements(cx, branch_elements(cx.t, bs[i] as int), 0, out, fuel) {
            Some(out) => flat_branches(cx, bs, i + 1, out.push(space()), fuel),
            None => None,
        }
    }
}

/// The branches before `i`, each on lines of its own.
pub open spec fn broken_branches(cx: LowerCtx, bs: Seq<usize>, i: int, reflow: bool, fuel: nat) -> Seq<Layout>
    decreases fuel, 85int, i,
{
    if i <= 0 || i > bs.len() {
        Seq::empty()
    } else {
        let es = branch_elements(cx.t, bs[i - 1] as int);
        let l = if reflow {
            reflowed(cx, es, ReflowKind::Prose, fuel).0
        } else {
            streamed(cx, es, fuel)
        };
        broken_branches(cx, bs, i - 1, reflow, fuel).push(l).push(Layout::HardLine)
    }
}

/// The branches and the closing command on one line.
pub fn collapse_conditional(cx: LowerCtx, branches: &Vec<usize>, closer: &Ir, Ghost(fuel): Ghost<nat>) -> (r: Option<Ir>)
    requires
        cx.ok(),
        fits(cx.t, branches@, fuel),
    ensures
        ({
            let flat = flat_branches(cx, branches@, 0, Seq::empty(), fuel);
            &&& r is Some == (!forces_break(closer@) && flat is Some)
            &&& r matches Some(x) ==> x@ == concat(flat->0.push(closer@))
        }),
    decreases fuel, 64int, 0int,
{
    if closer.contains_forced_break() {
        return None;
    }
    let ghost all = flat_branches(cx, branches@, 0, Seq::empty(), fuel);
    let mut parts = IrList::new();
    let mut i: usize = 0;
    while i < branches.len()
        invariant
            cx.ok(),
            fits(cx.t, branches@, fuel),
            i <= branches@.len(),
            all == flat_branches(cx, branches@, 0, Seq::empty(), fuel),
            flat_branches(cx, branches@, i as int, parts@, fuel) == all,
        decreases branches@.len() - i,
    {
        assert(room(cx.t, branches@[i as int] as int, fuel));
        let (es, _) = split_branch_gap(cx, branches[i]);
        match collapse_conditional_elements(cx, &es, parts, Ghost(fuel)) {
            Some(more) => {
                parts = more;
                parts.push(Ir::space());
            },
            None => {
                return None;
            },
        }
        i = i + 1;
    }
    parts.push(closer.clone());
    Some(Ir::concat(parts))
}

fn lower_broken_branches(cx: LowerCtx, branches: &Vec<usize>, reflow: bool, Ghost(fuel): Ghost<nat>) -> (r: IrList)
    requires
        cx.ok(),
        fits(cx.t, branches@, fuel),
    ensures
        r@ == broken_branches(cx, branches@, branches@.len() as int, reflow, fuel),
    decreases fuel, 85int, 0int,
{
    let mut broken = IrList::new();
    let mut i: usize = 0;
    while i < branches.len()
        invariant
            cx.ok(),
            fits(cx.t, branches@, fuel),
            i <= branches@.len(),
            broken@ == broken_branches(cx, branches@, i as int, reflow, fuel),
        decreases branches@.len() - i,
    {
        assert(room(cx.t, branches@[i as int] as int, fuel));
        let (es, _) = split_branch_gap(cx, branches[i]);
        let ir = if reflow {
            reflow_elements(cx, &es, ReflowKind::Prose, Ghost(fuel))
        } else {
            lower_stream(cx, &es, Ghost(fuel))
        };
        broken.push(ir);
        broken.push(Ir::HardLine);
        i = i + 1;
    }
    broken
}

/// Whether one of the branches runs into what follows it.
pub open spec fn any_glued(t: &Tree, bs: Seq<usize>) -> bool {
    exists|i: int| 0 <= i < bs.len() && branch_gap(t, #[trigger] bs[i] as int) is Glued
}

fn has_glued_branch(cx: LowerCtx, branches: &Vec<usize>) -> (r: bool)
    requires
        cx.ok(),
        in_tree(cx.t, branches@),
    ensures
        r == any_glued(cx.t, branches@),
{
    let mut i: usize = 0;
    while i < branches.len()
        invariant
            cx.ok(),
            in_tree(cx.t, branches@),
            i <= branches@.len(),
            forall|j: int| 0 <= j < i ==> !(branch_gap(cx.t, #[trigger] branches@[j] as int) is Glued),
        decreases branches@.len() - i,
    {
        let (_, gap) = split_branch_gap(cx, branches[i]);
        match gap {
            Gap::Glued => {
                return true;
            },
            _ => {},
        }
        i = i + 1;
    }
    false
}

/// A conditional with its parts: on one line where that fits, else a line for each branch.
pub open spec fn branched(cx: LowerCtx, s: Branches, reflow: bool, fuel: nat) -> Layout
    decreases fuel, 87int, 0int,
{
    let closer = node(cx, s.closer->0 as int, fuel);
    let broken = concat(broken_branches(cx, s.branches, s.branches.len() as int, reflow, fuel).push(closer));
    let flat = flat_branches(cx, s.branches, 0, Seq::empty(), fuel);
    let l = if !forces_break(closer) && flat is Some {
        Layout::Candidates(seq![concat(flat->0.push(closer)), broken])
    } else {
        broken
    };
    concat2(streamed(cx, s.leading, fuel), l)
}

fn lower_branched(cx: LowerCtx, p: ConditionalParts, reflow: bool, Ghost(fuel): Ghost<nat>) -> (r: Ir)
    requires
        cx.ok(),
        fits(cx.t, p.leading@, fuel),
        fits(cx.t, p.branches@, fuel),
        room(cx.t, p.closer as int, fuel),
    ensures
        r@ == branched(
            cx,
            Branches { leading: p.leading@, branches: p.branches@, closer: Some(p.closer) },
            reflow,
            fuel,
        ),
    decreases fuel, 87int, 0int,
{
    let leading = lower_stream(cx, &p.leading, Ghost(fuel));
    let closer = lower_node(cx, p.closer, Ghost(fuel));
    let mut parts = lower_broken_branches(cx, &p.branches, reflow, Ghost(fuel));
    parts.push(closer.clone());
    let broken = Ir::concat(parts);
    let ir = match collapse_conditional(cx, &p.branches, &closer, Ghost(fuel)) {
        Some(flat) => {
            let ghost both = seq![flat@, broken@];
            let mut forms = IrList::new();
            forms.push(flat);
            forms.push(broken);
            assert(forms@ =~= both);
            Ir::candidates(forms)
        },
        None => broken,
    };
    Ir::concat2(leading, ir)
}

/// A conditional.
pub open spec fn conditional(cx: LowerCtx, n: int, fuel: nat) -> Layout
    decreases fuel, 6int, 0int,
{
    if fuel == 0 {
        Layout::Nil
    } else {
        let less = (fuel - 1) as nat;
        let reflow = interior_reflows(cx.t, n);
        let parts = conditional_parts(cx.t, n);
        if cx.wrapping() && reflow is Some && parts is Some && !any_glued(cx.t, parts->0.branches) {
            branched(cx, parts->0, reflow->0, less)
        } else {
            streamed(cx, cx.t.kids(n), less)
        }
    }
}

pub fn lower_conditional(cx: LowerCtx, n: usize, Ghost(fuel): Ghost<nat>) -> (r: Ir)
    requires
        cx.ok(),
        room(cx.t, n as int, fuel),
    ensures
        r@ == conditional(cx, n as int, fuel),
    decreases fuel, 6int, 0int,
{
    let ghost less = (fuel - 1) as nat;
    let es = cx.children(n);
    if !cx.wraps_prose() {
        return lower_stream(cx, &es, Ghost(less));
    }
    match (conditional_interior_reflows(cx, n), split_conditional(cx, n, Ghost(fuel))) {
        (Some(reflow), Some(parts)) => {
            if has_glued_branch(cx, &parts.branches) {
                lower_stream(cx, &es, Ghost(less))
            } else {
                lower_branched(cx, parts, reflow, Ghost(less))
            }
        },
        _ => lower_stream(cx, &es, Ghost(less)),
    }
}

} // verus!

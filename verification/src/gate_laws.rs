//! What the closer of an opener is, told from the tokens between them.

use vstd::prelude::*;

use crate::gate::{
    bound, find, lemma_find_push, lemma_pop_last, lemma_quiet_all, lemma_seeded_sound,
    lemma_settle_last, lemma_settle_level, lemma_step_sound, own_closer, places, scan_from, seeded,
    settle_all, settle_level, sound, step, unwind, DollarAnchor, Entry, EnvAnchor, GatePolicy,
    GateToken, Nesting, ParagraphAnchor, Scan, StrayBrace, Walk,
};
use crate::syntax::SyntaxKind;

verus! {

// ---- counting tokens -----------------------------------------------------------------------

/// A brace that opens a group.
pub open spec fn group_opens(t: GateToken) -> bool {
    t.kind == SyntaxKind::LBrace && !t.plain_brace
}

/// A brace that closes a group.
pub open spec fn group_closes(t: GateToken) -> bool {
    t.kind == SyntaxKind::RBrace && !t.plain_brace
}

/// A token that separates words on a line and leaves the count of line breaks alone.
pub open spec fn blank(t: GateToken) -> bool {
    t.kind == SyntaxKind::Whitespace || t.kind == SyntaxKind::DocMargin
}

/// A token that can open, close or anchor: no white space, no guard and no brace of a group.
pub open spec fn content(t: GateToken) -> bool {
    &&& t.kind != SyntaxKind::Newline
    &&& !blank(t)
    &&& t.kind != SyntaxKind::Guard
    &&& !group_opens(t)
    &&& !group_closes(t)
}

/// How many groups that are opened in `lo..k` are open before token `k`.
pub open spec fn brace_level(w: &Walk, lo: int, k: int) -> int
    decreases k - lo,
{
    if k <= lo {
        0
    } else {
        let before = brace_level(w, lo, k - 1);
        let t = w.tokens@[k - 1];
        if group_opens(t) {
            before + 1
        } else if group_closes(t) && before > 0 {
            before - 1
        } else {
            before
        }
    }
}

/// Whether token `k` stands in a math region of dollars that opens in `lo..k` and that the policy
/// reads through.
pub open spec fn in_dollars(w: &Walk, p: &GatePolicy, lo: int, k: int) -> bool
    decreases k - lo,
{
    if k <= lo {
        false
    } else {
        let toggles = p.dollar_anchor == DollarAnchor::Transparent && w.tokens@[k - 1].kind == SyntaxKind::Dollar
            && brace_level(w, lo, k - 1) == 0;
        in_dollars(w, p, lo, k - 1) != toggles
    }
}

/// Whether a dollar is no more than a boundary here.
pub open spec fn delimits_math(w: &Walk, p: &GatePolicy, lo: int, k: int) -> bool {
    w.tokens@[k].kind == SyntaxKind::Dollar && brace_level(w, lo, k) == 0 && p.dollar_anchor == DollarAnchor::Transparent
}

/// Whether token `k` is an opener at the level of `lo`.
pub open spec fn opens_at(w: &Walk, p: &GatePolicy, lo: int, k: int) -> bool {
    &&& content(w.tokens@[k])
    &&& !delimits_math(w, p, lo, k)
    &&& brace_level(w, lo, k) == 0
    &&& !in_dollars(w, p, lo, k)
    &&& p.opens@[k]
}

/// Whether token `k` is a closer at the level of `lo`.
pub open spec fn closes_at(w: &Walk, p: &GatePolicy, lo: int, k: int) -> bool {
    &&& content(w.tokens@[k])
    &&& !delimits_math(w, p, lo, k)
    &&& brace_level(w, lo, k) == 0
    &&& !in_dollars(w, p, lo, k)
    &&& !p.opens@[k]
    &&& p.closes@[k]
}

/// Whether the policy minds an environment at token `k`.
pub open spec fn minds_environment(w: &Walk, p: &GatePolicy, lo: int, k: int) -> bool {
    &&& w.tokens@[k].kind == SyntaxKind::ControlWord
    &&& !opens_at(w, p, lo, k)
    &&& !closes_at(w, p, lo, k)
    &&& brace_level(w, lo, k) == 0 || p.anchors_at_any_depth
    &&& p.env_anchor_in_macro_code || !w.tokens@[k].macro_code
}

/// Whether an environment begins at token `k`.
pub open spec fn begins_at(w: &Walk, p: &GatePolicy, lo: int, k: int) -> bool {
    minds_environment(w, p, lo, k) && w.tokens@[k].env_begin
}

/// Whether an environment ends at token `k`.
pub open spec fn ends_at(w: &Walk, p: &GatePolicy, lo: int, k: int) -> bool {
    minds_environment(w, p, lo, k) && !w.tokens@[k].env_begin && w.tokens@[k].env_end
}

/// The innermost of these openers that opened the environment of this name, by its place among
/// them, or -1 where none did.
pub open spec fn place_of(w: &Walk, openers: Seq<int>, name: Option<usize>) -> int
    decreases openers.len(),
{
    if openers.len() == 0 {
        -1
    } else if w.tokens@[openers.last()].begin_name == name {
        openers.len() - 1
    } else {
        place_of(w, openers.drop_last(), name)
    }
}

/// The environment level behind `lo..k`: how many more environments begin there than end. An
/// opener that starts an environment counts, and an end that unwinds openers goes back to the
/// level of the opener that it belongs to.
pub open spec fn environments(w: &Walk, p: &GatePolicy, lo: int, k: int) -> int
    decreases k - lo, 0int,
{
    if k <= lo {
        0
    } else {
        let before = environments(w, p, lo, k - 1);
        let openers = waiting(w, p, lo, k - 1);
        let m = place_of(w, openers, w.tokens@[k - 1].end_name);
        if opens_at(w, p, lo, k - 1) {
            before + (if p.opener_is_env_begin {
                1int
            } else {
                0
            })
        } else if begins_at(w, p, lo, k - 1) {
            before + 1
        } else if !ends_at(w, p, lo, k - 1) {
            before
        } else if !p.env_end_unwinds_openers {
            before - 1
        } else if 0 <= m < openers.len() && lo <= openers[m] < k - 1 {
            environments(w, p, lo, openers[m] + 1)
        } else {
            before
        }
    }
}

/// The openers of `lo..k` that wait for their closer, innermost last: no closer of `lo..k` has
/// taken them, and no end of an environment has unwound them.
pub open spec fn waiting(w: &Walk, p: &GatePolicy, lo: int, k: int) -> Seq<int>
    decreases k - lo, 1int,
{
    if k <= lo {
        Seq::empty()
    } else {
        let before = waiting(w, p, lo, k - 1);
        let m = place_of(w, before, w.tokens@[k - 1].end_name);
        if opens_at(w, p, lo, k - 1) {
            before.push(k - 1)
        } else if closes_at(w, p, lo, k - 1) && before.len() > 0 {
            before.drop_last()
        } else if ends_at(w, p, lo, k - 1) && p.env_end_unwinds_openers && m >= 0 {
            before.take(m)
        } else {
            before
        }
    }
}

/// How many more environments begin than end between the innermost opener that waits and `k`.
pub open spec fn environments_inside(w: &Walk, p: &GatePolicy, lo: int, k: int) -> int {
    let openers = waiting(w, p, lo, k);
    environments(w, p, lo, k) - (if openers.len() == 0 {
        0
    } else {
        environments(w, p, lo, openers.last() + 1)
    })
}

/// Whether a line break stands in `lo..k` with nothing but white space behind it.
pub open spec fn at_line_start(w: &Walk, lo: int, k: int) -> bool {
    exists|a: int|
        lo <= a < k && (#[trigger] w.tokens@[a]).kind == SyntaxKind::Newline && forall|b: int|
            a < b < k ==> blank(#[trigger] w.tokens@[b])
}

/// Whether token `k` completes an empty line.
pub open spec fn ends_paragraph(w: &Walk, lo: int, k: int) -> bool {
    w.tokens@[k].kind == SyntaxKind::Newline && at_line_start(w, lo, k)
}

// ---- what comes between an opener and its closer -------------------------------------------

/// A brace that closes a group around the opener, where that is nothing to the policy.
pub open spec fn harmless_brace(w: &Walk, p: &GatePolicy) -> bool {
    match p.stray_brace {
        StrayBrace::RefutesInGroup => !w.in_group,
        StrayBrace::ClosesInGroup => !w.in_group,
        StrayBrace::RefutesAlways => false,
        StrayBrace::Ignored => true,
    }
}

/// Whether an empty line at token `k` parts the opener before `lo` from what follows.
pub open spec fn parts(w: &Walk, p: &GatePolicy, lo: int, k: int) -> bool {
    match p.paragraph_anchor {
        ParagraphAnchor::Never => false,
        ParagraphAnchor::AnyDepth => true,
        ParagraphAnchor::OwnLevel => brace_level(w, lo, k) == 0 && environments(w, p, lo, k) == 0 && (p.nesting
            == Nesting::Counted || waiting(w, p, lo, k).len() == 0),
    }
}

/// Whether token `k` leaves the opener before `lo` waiting.
pub open spec fn undisturbed(w: &Walk, p: &GatePolicy, lo: int, k: int) -> bool {
    let t = w.tokens@[k];
    &&& ends_paragraph(w, lo, k) ==> !parts(w, p, lo, k)
    &&& t.kind == SyntaxKind::Dollar && brace_level(w, lo, k) == 0 ==> p.dollar_anchor != DollarAnchor::Refutes
    &&& t.kind == SyntaxKind::ControlSymbol && p.math@[k] ==> brace_level(w, lo, k) != 0 && !p.anchors_at_any_depth
    &&& group_closes(t) && brace_level(w, lo, k) == 0 ==> harmless_brace(w, p)
    &&& begins_at(w, p, lo, k) ==> p.env_anchor == EnvAnchor::Counts && !(p.macrocode_frame_anchors && t.macrocode)
    &&& ends_at(w, p, lo, k) ==> p.env_anchor == EnvAnchor::Counts && (if p.env_end_unwinds_openers {
        place_of(w, waiting(w, p, lo, k), t.end_name) >= 0
    } else {
        environments(w, p, lo, k) > 0 && (p.nesting == Nesting::Interleaved ==> environments_inside(w, p, lo, k) != 0)
    })
    &&& closes_at(w, p, lo, k) ==> waiting(w, p, lo, k).len() > 0 && (p.nesting == Nesting::Interleaved
        ==> environments_inside(w, p, lo, k) == 0)
}

/// Whether token `c` can be read at all by a scan.
pub open spec fn in_reach(w: &Walk, p: &GatePolicy, c: int) -> bool {
    &&& 0 <= c < w.tokens@.len()
    &&& w.macrocode_end matches Some(end) ==> c < end
    &&& p.last_closer matches Some(last) && c <= last
}

/// Whether `c` closes the opener `open`: it is a closer at its brace level that no opener between
/// them takes, it agrees with the opener, the environments between them are balanced where that
/// counts, and nothing between them ends the search.
pub open spec fn pairs(w: &Walk, p: &GatePolicy, open: int, c: int) -> bool {
    &&& open < c
    &&& in_reach(w, p, c)
    &&& forall|k: int| open < k < c ==> #[trigger] undisturbed(w, p, open + 1, k)
    &&& closes_at(w, p, open + 1, c)
    &&& !(w.tokens@[c].kind == SyntaxKind::Dollar && p.dollar_anchor == DollarAnchor::Refutes)
    &&& !(w.tokens@[c].kind == SyntaxKind::ControlSymbol && p.math@[c])
    &&& waiting(w, p, open + 1, c).len() == 0
    &&& p.closer_needs_env_balance || p.nesting == Nesting::Interleaved ==> environments(w, p, open + 1, c) == 0
    &&& p.mate@[open] == p.mate@[c]
}

/// Whether the brace `c` that closes the group around the opener `open` closes the opener too.
pub open spec fn closed_by_brace(w: &Walk, p: &GatePolicy, open: int, c: int) -> bool {
    &&& open < c
    &&& in_reach(w, p, c)
    &&& forall|k: int| open < k < c ==> #[trigger] undisturbed(w, p, open + 1, k)
    &&& group_closes(w.tokens@[c])
    &&& brace_level(w, open + 1, c) == 0
    &&& p.stray_brace == StrayBrace::ClosesInGroup && w.in_group
}

// ---- the scan reads what the counts say ----------------------------------------------------

/// The state `s` in which a scan from `open` reaches token `k` while the opener waits.
spec fn reading(w: &Walk, p: &GatePolicy, open: usize, k: int, s: Scan) -> bool {
    let lo = open + 1;
    let openers = waiting(w, p, lo, k);
    &&& lo <= k
    &&& sound(p, s, k)
    &&& s.pending.len() == openers.len() + 1
    &&& s.pending[0] == (Entry { opener: open, envs_at_push: 0, settled: false })
    &&& forall|e: int| 0 <= e < openers.len() ==> open < (#[trigger] openers[e]) < k
    &&& forall|e: int|
        1 <= e < s.pending.len() ==> (#[trigger] s.pending[e]).opener == openers[e - 1] && s.pending[e].envs_at_push
            == environments(w, p, lo, openers[e - 1] + 1)
    &&& s.depth == brace_level(w, lo, k)
    &&& s.envs == environments(w, p, lo, k)
    &&& s.transparent == in_dollars(w, p, lo, k)
    &&& s.newlines > 0 <==> at_line_start(w, lo, k)
    &&& find(s.log, open) is None
}

/// The opener that waits longest has the first place.
proof fn lemma_first_place(s: Scan)
    requires
        places(s),
        s.pending.len() > 0,
        !s.pending[0].settled,
    ensures
        s.live.len() > 0,
        s.live[0] == 0,
{
    let k = choose|k: int| 0 <= k < s.live.len() && s.live[k] == 0usize;
    if k > 0 {
        assert(s.live[0] < s.live[k]);
    }
}

/// Settling everything without a closer refuses the first opener.
proof fn lemma_all_refused(s: Scan, k: int, open: usize, closer: Option<usize>)
    requires
        places(s),
        s.pending.len() > 0,
        !s.pending[0].settled,
        s.pending[0].opener == open,
        forall|e: int| 1 <= e < s.pending.len() ==> (#[trigger] s.pending[e]).opener != open,
        0 < k <= s.live.len(),
    ensures
        find(settle_all(s, k, closer), open) == Some(closer),
    decreases k,
{
    lemma_first_place(s);
    let v = (s.pending[s.live[k - 1] as int].opener, closer);
    lemma_find_push(settle_all(s, k - 1, closer), v, open);
    if k > 1 {
        lemma_all_refused(s, k - 1, open, closer);
        assert(s.live[0] < s.live[k - 1]);
    }
}

/// Settling an inner level leaves the first opener as it is.
proof fn lemma_level_spares(s: Scan, open: usize)
    requires
        places(s),
        s.pending.len() > 0,
        s.pending[0] == (Entry { opener: open, envs_at_push: 0, settled: false }),
        forall|e: int| 1 <= e < s.pending.len() ==> (#[trigger] s.pending[e]).opener != open,
        s.envs > 0,
    ensures
        settle_level(s).live.len() > 0,
        settle_level(s).pending.len() == s.pending.len(),
        settle_level(s).pending[0] == s.pending[0],
        find(settle_level(s).log, open) == find(s.log, open),
    decreases s.live.len(),
{
    lemma_first_place(s);
    let at = s.live.last() as int;
    assert(s.live[s.live.len() - 1] == at);
    let entry = s.pending[at];
    if entry.envs_at_push == s.envs {
        lemma_settle_last(s);
        lemma_find_push(s.log, (entry.opener, None), open);
        let next = Scan {
            pending: s.pending.update(at, Entry { settled: true, ..entry }),
            live: s.live.drop_last(),
            log: s.log.push((entry.opener, None)),
            ..s
        };
        lemma_level_spares(next, open);
    }
}

/// Settling the outermost level refuses the first opener.
proof fn lemma_level_takes(s: Scan, open: usize)
    requires
        places(s),
        s.pending.len() > 0,
        s.pending[0] == (Entry { opener: open, envs_at_push: 0, settled: false }),
        forall|e: int| 1 <= e < s.pending.len() ==> (#[trigger] s.pending[e]).opener != open,
        s.envs == 0,
        forall|k: int| 0 <= k < s.live.len() ==> s.pending[#[trigger] s.live[k] as int].envs_at_push == 0,
    ensures
        settle_level(s).live.len() == 0,
        find(settle_level(s).log, open) == Some(None::<usize>),
    decreases s.live.len(),
{
    lemma_first_place(s);
    let at = s.live.last() as int;
    assert(s.live[s.live.len() - 1] == at);
    let entry = s.pending[at];
    lemma_settle_last(s);
    lemma_find_push(s.log, (entry.opener, None), open);
    let next = Scan {
        pending: s.pending.update(at, Entry { settled: true, ..entry }),
        live: s.live.drop_last(),
        log: s.log.push((entry.opener, None)),
        ..s
    };
    if s.live.len() > 1 {
        assert(s.live[0] < s.live[s.live.len() - 1]);
        assert forall|k: int| 0 <= k < next.live.len() implies next.pending[#[trigger] next.live[k] as int].envs_at_push
            == 0 by {
            assert(s.live[k] < s.live[s.live.len() - 1]);
        }
        lemma_level_takes(next, open);
    } else {
        assert(settle_level(next) == next);
    }
}

/// Whether token `c` itself decides that it closes the opener that waits before `lo`.
spec fn decides(w: &Walk, p: &GatePolicy, open: int, c: int) -> bool {
    let lo = open + 1;
    ||| {
        &&& closes_at(w, p, lo, c)
        &&& !(w.tokens@[c].kind == SyntaxKind::Dollar && p.dollar_anchor == DollarAnchor::Refutes)
        &&& !(w.tokens@[c].kind == SyntaxKind::ControlSymbol && p.math@[c])
        &&& waiting(w, p, lo, c).len() == 0
        &&& p.closer_needs_env_balance || p.nesting == Nesting::Interleaved ==> environments(w, p, lo, c) == 0
        &&& p.mate@[open] == p.mate@[c]
    }
    ||| {
        &&& group_closes(w.tokens@[c])
        &&& brace_level(w, lo, c) == 0
        &&& p.stray_brace == StrayBrace::ClosesInGroup && w.in_group
    }
}

proof fn lemma_line_start(w: &Walk, lo: int, k: int)
    requires
        lo <= k,
    ensures
        at_line_start(w, lo, k + 1) <==> w.tokens@[k].kind == SyntaxKind::Newline || (blank(w.tokens@[k]) && at_line_start(
            w,
            lo,
            k,
        )),
{
    if at_line_start(w, lo, k + 1) {
        let a = choose|a: int|
            lo <= a < k + 1 && (#[trigger] w.tokens@[a]).kind == SyntaxKind::Newline && forall|b: int|
                a < b < k + 1 ==> blank(#[trigger] w.tokens@[b]);
        if a < k {
            assert(blank(w.tokens@[k]));
        }
    }
    if w.tokens@[k].kind == SyntaxKind::Newline {
    } else if blank(w.tokens@[k]) && at_line_start(w, lo, k) {
        let a = choose|a: int|
            lo <= a < k && (#[trigger] w.tokens@[a]).kind == SyntaxKind::Newline && forall|b: int|
                a < b < k ==> blank(#[trigger] w.tokens@[b]);
        assert(w.tokens@[a].kind == SyntaxKind::Newline);
    }
}

spec fn plain_policy(w: &Walk, p: &GatePolicy) -> bool {
    &&& p.fits(w)
    &&& p.env_end_unwinds_openers && p.nesting == Nesting::Counted ==> p.paragraph_anchor != ParagraphAnchor::OwnLevel
}

/// What token `k` does to an opener that waits for it.
spec fn told(w: &Walk, p: &GatePolicy, open: usize, k: int, s: Scan) -> bool {
    let (flow, next) = step(w, p, k, s);
    if undisturbed(w, p, open + 1, k) {
        flow is Go && reading(w, p, open, k + 1, next)
    } else {
        find(scan_from(w, p, k, s), open) == Some(if decides(w, p, open as int, k) { Some(k as usize) } else { None })
    }
}

/// What waits beside the first opener is another one.
proof fn lemma_others(w: &Walk, p: &GatePolicy, open: usize, k: int, s: Scan)
    requires
        reading(w, p, open, k, s),
    ensures
        places(s),
        forall|e: int| 1 <= e < s.pending.len() ==> (#[trigger] s.pending[e]).opener != open,
{
    let openers = waiting(w, p, open + 1, k);
    assert forall|e: int| 1 <= e < s.pending.len() implies (#[trigger] s.pending[e]).opener != open by {
        assert(open < openers[e - 1]);
    }
}

proof fn lemma_reads_newline(w: &Walk, p: &GatePolicy, open: usize, k: int, s: Scan)
    requires
        plain_policy(w, p),
        reading(w, p, open, k, s),
        k < bound(w, p),
        w.tokens@[k].kind == SyntaxKind::Newline,
    ensures
        told(w, p, open, k, s),
{
    let lo = open + 1;
    let s1 = Scan { newlines: s.newlines + 1, ..s };
    let (flow, next) = step(w, p, k, s);
    lemma_others(w, p, open, k, s);
    lemma_line_start(w, lo, k);
    lemma_step_sound(w, p, k, s);
    lemma_first_place(s1);
    assert(ends_paragraph(w, lo, k) <==> s1.newlines >= 2);
    assert(!decides(w, p, open as int, k));
    if !ends_paragraph(w, lo, k) || p.paragraph_anchor == ParagraphAnchor::Never {
    } else if p.paragraph_anchor == ParagraphAnchor::AnyDepth {
        lemma_all_refused(s1, s1.live.len() as int, open, None);
    } else if s1.depth == 0 {
        if p.nesting == Nesting::Counted {
            lemma_settle_level(p, s1);
            if s.envs > 0 {
                lemma_level_spares(s1, open);
            } else {
                assert forall|j: int| 0 <= j < s1.live.len() implies s1.pending[#[trigger] s1.live[j] as int].envs_at_push
                    == 0 by {
                    assert(s.pending[s.live[j] as int].envs_at_push <= s.envs);
                }
                lemma_level_takes(s1, open);
            }
        } else {
            let entry = s1.pending.last();
            assert(s1.pending[s1.pending.len() - 1] == entry);
            lemma_pop_last(s1);
            lemma_find_push(s1.log, (entry.opener, None), open);
            if s1.pending.len() == 1 {
                if s.live.len() > 1 {
                    assert(s.live[0] < s.live[1] < s.pending.len());
                }
                assert(s1.live.len() == 1);
            } else if !entry.settled && s1.live.len() == 1 {
                assert(s1.live.last() == s1.live[0]);
            }
        }
    }
}

proof fn lemma_reads_frame(w: &Walk, p: &GatePolicy, open: usize, k: int, s: Scan)
    requires
        plain_policy(w, p),
        reading(w, p, open, k, s),
        k < bound(w, p),
        w.tokens@[k].kind != SyntaxKind::Newline,
        !content(w.tokens@[k]) || (w.tokens@[k].kind == SyntaxKind::Dollar && s.depth == 0 && p.dollar_anchor
            != DollarAnchor::Ignored) || (w.tokens@[k].kind == SyntaxKind::ControlSymbol && p.math@[k] && (s.depth == 0
            || p.anchors_at_any_depth)),
    ensures
        told(w, p, open, k, s),
{
    let lo = open + 1;
    lemma_others(w, p, open, k, s);
    lemma_line_start(w, lo, k);
    lemma_step_sound(w, p, k, s);
    lemma_first_place(s);
    lemma_all_refused(s, s.live.len() as int, open, None);
    lemma_all_refused(s, s.live.len() as int, open, Some(k as usize));
}

proof fn lemma_reads_opener(w: &Walk, p: &GatePolicy, open: usize, k: int, s: Scan)
    requires
        plain_policy(w, p),
        reading(w, p, open, k, s),
        k < bound(w, p),
        opens_at(w, p, open + 1, k),
        undisturbed(w, p, open + 1, k),
    ensures
        told(w, p, open, k, s),
{
    let lo = open + 1;
    lemma_others(w, p, open, k, s);
    lemma_line_start(w, lo, k);
    lemma_step_sound(w, p, k, s);
    let next = step(w, p, k, s).1;
    let openers = waiting(w, p, lo, k);
    let later = waiting(w, p, lo, k + 1);
    assert(later == openers.push(k));
    assert(w.tokens.len() == w.tokens@.len());
    let entry = next.pending[next.pending.len() - 1];
    assert(entry.opener == k);
    assert(entry.envs_at_push == environments(w, p, lo, k + 1));
    assert forall|e: int| 1 <= e < next.pending.len() implies (#[trigger] next.pending[e]).opener == later[e - 1]
        && next.pending[e].envs_at_push == environments(w, p, lo, later[e - 1] + 1) by {
        if e < s.pending.len() {
            assert(next.pending[e] == s.pending[e]);
        }
    }
}

proof fn lemma_reads_closer(w: &Walk, p: &GatePolicy, open: usize, k: int, s: Scan)
    requires
        plain_policy(w, p),
        reading(w, p, open, k, s),
        k < bound(w, p),
        closes_at(w, p, open + 1, k),
        !(w.tokens@[k].kind == SyntaxKind::Dollar && p.dollar_anchor == DollarAnchor::Refutes),
        !(w.tokens@[k].kind == SyntaxKind::ControlSymbol && p.math@[k]),
    ensures
        told(w, p, open, k, s),
{
    let lo = open + 1;
    lemma_others(w, p, open, k, s);
    lemma_line_start(w, lo, k);
    lemma_step_sound(w, p, k, s);
    lemma_first_place(s);
    lemma_pop_last(s);
    let (flow, next) = step(w, p, k, s);
    let openers = waiting(w, p, lo, k);
    let entry = s.pending.last();
    assert(s.pending[s.pending.len() - 1] == entry);
    lemma_find_push(s.log, (entry.opener, None), open);
    lemma_find_push(s.log, (entry.opener, Some(k as usize)), open);
    if openers.len() == 0 {
        if s.live.len() > 1 {
            assert(s.live[0] < s.live[1] < s.pending.len());
        }
        assert(s.live.len() == 1);
        assert(next.live.len() == 0);
        lemma_quiet_all(next, next.live.len() as int, None, open);
    } else {
        if !entry.settled && s.live.len() == 1 {
            assert(s.live.last() == s.live[0]);
        }
        if flow is Refuse {
            assert(places(next));
            lemma_first_place(next);
            lemma_all_refused(
                next,
                next.live.len() as int,
                open,
                None,
            );
        } else {
            let later = waiting(w, p, lo, k + 1);
            assert(later == openers.drop_last());
            assert forall|e: int| 1 <= e < next.pending.len() implies (#[trigger] next.pending[e]).opener == later[e - 1]
                && next.pending[e].envs_at_push == environments(w, p, lo, later[e - 1] + 1) by {
                assert(next.pending[e] == s.pending[e]);
            }
        }
    }
}

/// The innermost opener behind the first one that opened the environment of this name, by its
/// place, or 0.
spec fn named_entry(w: &Walk, pending: Seq<Entry>, name: Option<usize>) -> int
    decreases pending.len(),
{
    if pending.len() <= 1 {
        0
    } else if w.tokens@[pending.last().opener as int].begin_name == name {
        pending.len() - 1
    } else {
        named_entry(w, pending.drop_last(), name)
    }
}

proof fn lemma_named(w: &Walk, pending: Seq<Entry>, openers: Seq<int>, name: Option<usize>)
    requires
        pending.len() == openers.len() + 1,
        forall|e: int| 1 <= e < pending.len() ==> (#[trigger] pending[e]).opener == openers[e - 1],
    ensures
        named_entry(w, pending, name) == place_of(w, openers, name) + 1,
    decreases pending.len(),
{
    if pending.len() > 1 {
        assert(pending.last() == pending[pending.len() - 1]);
        assert forall|e: int| 1 <= e < pending.drop_last().len() implies (#[trigger] pending.drop_last()[e]).opener
            == openers.drop_last()[e - 1] by {
            assert(pending[e].opener == openers[e - 1]);
        }
        lemma_named(w, pending.drop_last(), openers.drop_last(), name);
    }
}

/// Unwinding stops at an opener of its name, or refuses the first one.
proof fn lemma_unwound(w: &Walk, s: Scan, name: Option<usize>, open: usize)
    requires
        places(s),
        s.pending.len() > 0,
        s.pending[0].opener == open && !s.pending[0].settled,
        forall|e: int| 1 <= e < s.pending.len() ==> (#[trigger] s.pending[e]).opener != open,
    ensures
        ({
            let m = named_entry(w, s.pending, name);
            let r = unwind(w, s, name);
            if m > 0 {
                &&& m < s.pending.len()
                &&& r.0
                &&& places(r.1)
                &&& r.1.pending == s.pending.take(m)
                &&& r.1.envs == s.pending[m].envs_at_push
                &&& r.1.depth == s.depth
                &&& r.1.transparent == s.transparent
                &&& find(r.1.log, open) == find(s.log, open)
            } else {
                &&& r.1.live.len() == 0
                &&& find(r.1.log, open) == Some(None::<usize>)
            }
        }),
    decreases s.pending.len(),
{
    let entry = s.pending.last();
    assert(entry == s.pending[s.pending.len() - 1]);
    lemma_pop_last(s);
    lemma_find_push(s.log, (entry.opener, None), open);
    let next = Scan {
        pending: s.pending.drop_last(),
        live: if entry.settled { s.live } else { s.live.drop_last() },
        envs: entry.envs_at_push as int,
        log: if entry.settled { s.log } else { s.log.push((entry.opener, None)) },
        ..s
    };
    assert(places(next));
    if s.pending.len() == 1 {
        assert(next.pending.len() == 0);
        if next.live.len() > 0 {
            assert(next.live[0] < next.pending.len());
        }
        assert(unwind(w, next, name).1 == next);
    } else if w.tokens@[entry.opener as int].begin_name == name {
        assert(next.pending =~= s.pending.take(s.pending.len() - 1));
    } else {
        lemma_unwound(w, next, name, open);
        let m = named_entry(w, next.pending, name);
        if m > 0 {
            assert(next.pending.take(m) =~= s.pending.take(m));
        }
    }
}

proof fn lemma_reads_unwinding(w: &Walk, p: &GatePolicy, open: usize, k: int, s: Scan)
    requires
        plain_policy(w, p),
        reading(w, p, open, k, s),
        k < bound(w, p),
        ends_at(w, p, open + 1, k),
        p.env_anchor == EnvAnchor::Counts,
        p.env_end_unwinds_openers,
    ensures
        told(w, p, open, k, s),
{
    let lo = open + 1;
    let name = w.tokens@[k].end_name;
    let openers = waiting(w, p, lo, k);
    lemma_others(w, p, open, k, s);
    lemma_line_start(w, lo, k);
    lemma_step_sound(w, p, k, s);
    lemma_named(w, s.pending, openers, name);
    lemma_unwound(w, s, name, open);
    let (flow, next) = step(w, p, k, s);
    let m = place_of(w, openers, name);
    if m >= 0 {
        let later = waiting(w, p, lo, k + 1);
        assert(later == openers.take(m));
        lemma_first_place(unwind(w, s, name).1);
        assert(open < openers[m] < k);
        assert(s.pending[m + 1].envs_at_push == environments(w, p, lo, openers[m] + 1));
        assert forall|e: int| 1 <= e < next.pending.len() implies (#[trigger] next.pending[e]).opener == later[e - 1]
            && next.pending[e].envs_at_push == environments(w, p, lo, later[e - 1] + 1) by {
            assert(next.pending[e] == s.pending[e]);
        }
    } else {
        lemma_quiet_all(next, next.live.len() as int, None, open);
    }
}

proof fn lemma_reads_environment(w: &Walk, p: &GatePolicy, open: usize, k: int, s: Scan)
    requires
        plain_policy(w, p),
        reading(w, p, open, k, s),
        k < bound(w, p),
        begins_at(w, p, open + 1, k) || ends_at(w, p, open + 1, k),
    ensures
        told(w, p, open, k, s),
{
    let lo = open + 1;
    lemma_others(w, p, open, k, s);
    lemma_line_start(w, lo, k);
    lemma_step_sound(w, p, k, s);
    lemma_first_place(s);
    lemma_all_refused(Scan { newlines: 0, ..s }, s.live.len() as int, open, None);
    let (flow, next) = step(w, p, k, s);
    let openers = waiting(w, p, lo, k);
    let inner = s.pending[s.pending.len() - 1];
    assert(inner == s.pending.last());
    if p.nesting == Nesting::Interleaved {
        assert(environments_inside(w, p, lo, k) == s.envs - inner.envs_at_push);
        if !p.env_end_unwinds_openers {
            assert(inner.envs_at_push <= s.envs);
        }
    }
    if ends_at(w, p, lo, k) && p.env_anchor == EnvAnchor::Counts && p.env_end_unwinds_openers {
        lemma_reads_unwinding(w, p, open, k, s);
    } else if ends_at(w, p, lo, k) && p.env_anchor == EnvAnchor::Counts && p.nesting == Nesting::Counted {
        lemma_settle_level(p, s);
        if s.envs > 0 {
            lemma_level_spares(s, open);
            assert forall|e: int| 1 <= e < next.pending.len() implies (#[trigger] next.pending[e]).opener == openers[e - 1]
                && next.pending[e].envs_at_push == environments(w, p, lo, openers[e - 1] + 1) by {
                assert(settle_level(s).pending[e].opener == s.pending[e].opener);
            }
        } else {
            assert forall|j: int| 0 <= j < s.live.len() implies s.pending[#[trigger] s.live[j] as int].envs_at_push
                == 0 by {
                assert(s.pending[s.live[j] as int].envs_at_push <= s.envs);
            }
            lemma_level_takes(s, open);
        }
    }
}

proof fn lemma_reads(w: &Walk, p: &GatePolicy, open: usize, k: int, s: Scan)
    requires
        plain_policy(w, p),
        reading(w, p, open, k, s),
        k < bound(w, p),
    ensures
        told(w, p, open, k, s),
{
    let lo = open + 1;
    let t = w.tokens@[k];
    if t.kind == SyntaxKind::Newline {
        lemma_reads_newline(w, p, open, k, s);
    } else if !content(t) || (t.kind == SyntaxKind::Dollar && s.depth == 0 && p.dollar_anchor != DollarAnchor::Ignored) || (
    t.kind == SyntaxKind::ControlSymbol && p.math@[k] && (s.depth == 0 || p.anchors_at_any_depth)) {
        lemma_reads_frame(w, p, open, k, s);
    } else if opens_at(w, p, lo, k) {
        lemma_reads_opener(w, p, open, k, s);
    } else if closes_at(w, p, lo, k) {
        lemma_reads_closer(w, p, open, k, s);
    } else if begins_at(w, p, lo, k) || ends_at(w, p, lo, k) {
        lemma_reads_environment(w, p, open, k, s);
    } else {
        lemma_others(w, p, open, k, s);
        lemma_line_start(w, lo, k);
        lemma_step_sound(w, p, k, s);
    }
}

/// The verdict of a scan that has reached token `k` with its opener waiting.
proof fn lemma_verdict(w: &Walk, p: &GatePolicy, open: usize, k: int, s: Scan, c: usize)
    requires
        plain_policy(w, p),
        reading(w, p, open, k, s),
    ensures
        find(scan_from(w, p, k, s), open) is Some,
        find(scan_from(w, p, k, s), open) == Some(Some(c)) <==> k <= c < bound(w, p) && decides(w, p, open as int, c as int)
            && !undisturbed(w, p, open + 1, c as int) && forall|j: int| k <= j < c ==> #[trigger] undisturbed(w, p, open + 1, j),
    decreases bound(w, p) - k,
{
    if k >= bound(w, p) {
        lemma_others(w, p, open, k, s);
        lemma_first_place(s);
        lemma_all_refused(s, s.live.len() as int, open, None);
    } else {
        lemma_reads(w, p, open, k, s);
        if undisturbed(w, p, open + 1, k) {
            let next = step(w, p, k, s).1;
            lemma_verdict(w, p, open, k + 1, next, c);
        } else if c > k {
            assert(!(forall|j: int| k <= j < c ==> #[trigger] undisturbed(w, p, open + 1, j)));
        }
    }
}

/// The verdict on an opener is exactly the closer that pairs with it: the first closer at its brace
/// level that no opener between them takes, if the two agree, if the environments between them are
/// balanced where the policy asks for that, and if no empty line, math, stray brace or environment
/// end parts them. Where a brace that closes the group around the opener counts as its closer,
/// that brace is the other verdict there can be. Of policies that both unwind openers and count
/// them by themselves, those are left out that mind empty lines at the level of the opener.
pub proof fn an_opener_has_the_closer_that_pairs_with_it(w: &Walk, p: &GatePolicy, open: usize, c: usize)
    requires
        p.fits(w),
        open < w.tokens@.len(),
        p.env_end_unwinds_openers && p.nesting == Nesting::Counted ==> p.paragraph_anchor != ParagraphAnchor::OwnLevel,
    ensures
        own_closer(w, p, open) == Some(c) <==> pairs(w, p, open as int, c as int) || closed_by_brace(
            w,
            p,
            open as int,
            c as int,
        ),
{
    let s = seeded(open);
    let lo = open + 1;
    lemma_seeded_sound(p, open);
    assert(!at_line_start(w, lo, lo));
    assert(reading(w, p, open, lo, s));
    lemma_verdict(w, p, open, lo, s, c);
    if p.last_closer is Some {
        assert(w.tokens.len() == w.tokens@.len());
    }
}

} // verus!

//! The lookahead that decides whether an opening delimiter has its closer.
//!
//! One forward scan settles the opener that it starts from and every opener of the same brace
//! frame that it passes.

use std::collections::HashMap;

use vstd::prelude::*;

use crate::syntax::SyntaxKind;

verus! {

/// How many line breaks make a blank line.
pub const BLANK_LINE_NEWLINES: usize = 2;

/// What the scan reads of a token.
#[derive(Clone, Copy, Debug, PartialEq, Eq, Structural)]
pub struct GateToken {
    pub kind: SyntaxKind,
    /// A brace that does not delimit a group.
    pub plain_brace: bool,
    /// The token stands in a definition body or in expl3 code.
    pub macro_code: bool,
    /// The token opens an environment.
    pub env_begin: bool,
    /// The token closes an environment.
    pub env_end: bool,
    /// The token opens a chunk of code.
    pub macrocode: bool,
    /// The name of the environment that the token opens, as a number.
    pub begin_name: Option<usize>,
    /// The name of the environment that the token closes, as a number.
    pub end_name: Option<usize>,
}

/// Where a blank line ends a scan.
#[derive(Clone, Copy, Debug, PartialEq, Eq, Structural)]
pub enum ParagraphAnchor {
    Never,
    OwnLevel,
    AnyDepth,
}

/// How openers and environments nest.
#[derive(Clone, Copy, Debug, PartialEq, Eq, Structural)]
pub enum Nesting {
    /// Each is counted by itself.
    Counted,
    /// They share one stack of frames.
    Interleaved,
}

/// What a brace that closes an outer group means.
#[derive(Clone, Copy, Debug, PartialEq, Eq, Structural)]
pub enum StrayBrace {
    RefutesInGroup,
    ClosesInGroup,
    RefutesAlways,
    Ignored,
}

/// What an environment means.
#[derive(Clone, Copy, Debug, PartialEq, Eq, Structural)]
pub enum EnvAnchor {
    Counts,
    Refutes,
}

/// What a dollar means.
#[derive(Clone, Copy, Debug, PartialEq, Eq, Structural)]
pub enum DollarAnchor {
    Refutes,
    /// Its region is read through.
    Transparent,
    Ignored,
}

/// A kind of delimiter, and what ends a scan for it.
pub struct GatePolicy {
    pub paragraph_anchor: ParagraphAnchor,
    pub nesting: Nesting,
    pub stray_brace: StrayBrace,
    pub env_anchor: EnvAnchor,
    pub dollar_anchor: DollarAnchor,
    pub opener_is_env_begin: bool,
    pub closer_needs_env_balance: bool,
    pub env_anchor_in_macro_code: bool,
    pub macrocode_frame_anchors: bool,
    pub env_end_unwinds_openers: bool,
    pub anchors_at_any_depth: bool,
    /// The tokens that open, that close and that end the scan as math does.
    pub opens: Vec<bool>,
    pub closes: Vec<bool>,
    pub math: Vec<bool>,
    /// What an opener and a closer have to agree on.
    pub mate: Vec<usize>,
    /// The last token of the file that closes.
    pub last_closer: Option<usize>,
}

/// The token stream and where the parse stands in it.
pub struct Walk {
    pub tokens: Vec<GateToken>,
    /// Where the chunk of code ends that the parse is in.
    pub macrocode_end: Option<usize>,
    pub in_def_body: bool,
    pub in_group: bool,
    /// The version of the set of plain braces.
    pub plain_braces: usize,
    /// Whether each enclosing math body is delimited by dollars, outermost first.
    pub math_dollar: Vec<bool>,
}

/// What a scan reads of where the parse stands.
#[derive(Clone, Copy, Debug, PartialEq, Eq, Structural)]
pub struct WalkKey {
    pub macrocode_end: Option<usize>,
    pub in_def_body: bool,
    pub in_group: bool,
    pub plain_braces: usize,
    pub enclosing_math_is_dollar: bool,
}

/// An opener that the scan has passed.
#[derive(Clone, Copy, Debug, PartialEq, Eq, Structural)]
pub struct Entry {
    pub opener: usize,
    pub envs_at_push: usize,
    pub settled: bool,
}

/// An opener, and its closer if it has one.
pub type Pairing = (usize, Option<usize>);

impl GatePolicy {
    /// The policy speaks of every token.
    pub open spec fn fits(&self, w: &Walk) -> bool {
        &&& self.opens@.len() == w.tokens@.len()
        &&& self.closes@.len() == w.tokens@.len()
        &&& self.math@.len() == w.tokens@.len()
        &&& self.mate@.len() == w.tokens@.len()
        &&& self.last_closer matches Some(last) ==> last < w.tokens@.len()
    }
}

impl Walk {
    /// Whether the innermost enclosing math body is delimited by dollars.
    pub open spec fn dollar(&self) -> bool {
        self.math_dollar@.len() > 0 && self.math_dollar@.last()
    }

    pub open spec fn key(&self) -> WalkKey {
        WalkKey {
            macrocode_end: self.macrocode_end,
            in_def_body: self.in_def_body,
            in_group: self.in_group,
            plain_braces: self.plain_braces,
            enclosing_math_is_dollar: self.dollar(),
        }
    }

    /// Whether the innermost enclosing math body is delimited by dollars. Outside math it is not.
    pub fn enclosing_math_is_dollar(&self) -> (r: bool)
        ensures
            r == self.dollar(),
    {
        let n: usize = self.math_dollar.len();
        n > 0 && self.math_dollar[n - 1]
    }

    /// What a scan reads of where the parse stands.
    pub fn walk_key(&self) -> (r: WalkKey)
        ensures
            r == self.key(),
    {
        WalkKey {
            macrocode_end: self.macrocode_end,
            in_def_body: self.in_def_body,
            in_group: self.in_group,
            plain_braces: self.plain_braces,
            enclosing_math_is_dollar: self.enclosing_math_is_dollar(),
        }
    }

    /// Whether token `i` is a bracket that stands directly behind a command.
    pub fn bracket_abuts_command(&self, i: usize) -> (r: bool)
        requires
            i < self.tokens@.len(),
        ensures
            r == (self.tokens@[i as int].kind == SyntaxKind::LBracket && i > 0 && (self.tokens@[i - 1].kind
                == SyntaxKind::ControlWord || self.tokens@[i - 1].kind == SyntaxKind::ControlSymbol)),
    {
        self.tokens[i].kind == SyntaxKind::LBracket && i > 0 && (self.tokens[i - 1].kind == SyntaxKind::ControlWord
            || self.tokens[i - 1].kind == SyntaxKind::ControlSymbol)
    }
}

// ---- the scan as a function ----------------------------------------------------------------

/// The state of a scan.
pub ghost struct Scan {
    /// The openers that wait for their closer, innermost last. A settled one keeps its place.
    pub pending: Seq<Entry>,
    /// The places in `pending` of the openers that are not settled.
    pub live: Seq<usize>,
    pub depth: int,
    pub envs: int,
    pub newlines: int,
    pub transparent: bool,
    /// The verdicts so far.
    pub log: Seq<Pairing>,
}

/// How a scan goes on.
pub enum Flow {
    Go,
    /// Everything that is not settled is refused.
    Refuse,
    Stop,
}

/// The scan of one opener, before its first token.
pub open spec fn seeded(open: usize) -> Scan {
    Scan {
        pending: seq![Entry { opener: open, envs_at_push: 0, settled: false }],
        live: seq![0usize],
        depth: 0,
        envs: 0,
        newlines: 0,
        transparent: false,
        log: Seq::empty(),
    }
}

/// Settles, without a closer, the openers at environment level `envs`, from the innermost on.
pub open spec fn settle_level(s: Scan) -> Scan
    decreases s.live.len(),
{
    if s.live.len() == 0 {
        s
    } else {
        let at = s.live.last() as int;
        let entry = s.pending[at];
        if entry.envs_at_push != s.envs {
            s
        } else {
            settle_level(
                Scan {
                    pending: s.pending.update(at, Entry { settled: true, ..entry }),
                    live: s.live.drop_last(),
                    log: s.log.push((entry.opener, None)),
                    ..s
                },
            )
        }
    }
}

/// Settles, without a closer, the innermost opener when no environment stands inside it.
pub open spec fn settle_innermost(s: Scan) -> Scan {
    if s.pending.len() == 0 {
        s
    } else {
        let entry = s.pending.last();
        if entry.settled || entry.envs_at_push != s.envs {
            s
        } else {
            Scan {
                pending: s.pending.update(s.pending.len() - 1, Entry { settled: true, ..entry }),
                live: s.live.drop_last(),
                log: s.log.push((entry.opener, None)),
                ..s
            }
        }
    }
}

/// The verdicts of the openers that are not settled, all with `closer`, outermost first.
pub open spec fn settle_all(s: Scan, k: int, closer: Option<usize>) -> Seq<Pairing>
    decreases k,
{
    if k <= 0 || k > s.live.len() {
        s.log
    } else {
        settle_all(s, k - 1, closer).push((s.pending[s.live[k - 1] as int].opener, closer))
    }
}

/// Takes openers off the stack, without a closer, up to the one that opened the environment
/// named `name`; says whether there was one.
pub open spec fn unwind(w: &Walk, s: Scan, name: Option<usize>) -> (bool, Scan)
    decreases s.pending.len(),
{
    if s.pending.len() == 0 {
        (false, s)
    } else {
        let entry = s.pending.last();
        let next = Scan {
            pending: s.pending.drop_last(),
            live: if entry.settled { s.live } else { s.live.drop_last() },
            envs: entry.envs_at_push as int,
            log: if entry.settled { s.log } else { s.log.push((entry.opener, None)) },
            ..s
        };
        if w.tokens@[entry.opener as int].begin_name == name {
            (true, next)
        } else {
            unwind(w, next, name)
        }
    }
}

/// Reading a line break.
pub open spec fn step_newline(p: &GatePolicy, s0: Scan) -> (Flow, Scan) {
    let s = Scan { newlines: s0.newlines + 1, ..s0 };
    let anchored = match p.paragraph_anchor {
        ParagraphAnchor::Never => false,
        ParagraphAnchor::OwnLevel => s.depth == 0,
        ParagraphAnchor::AnyDepth => true,
    };
    if s.newlines < BLANK_LINE_NEWLINES || !anchored {
        (Flow::Go, s)
    } else if p.paragraph_anchor == ParagraphAnchor::AnyDepth {
        (Flow::Refuse, s)
    } else {
        let next = match p.nesting {
            Nesting::Counted => settle_level(s),
            Nesting::Interleaved => settle_innermost(s),
        };
        (if next.live.len() == 0 { Flow::Stop } else { Flow::Go }, next)
    }
}

/// Reading a closer: it takes the innermost opener.
pub open spec fn step_close(w: &Walk, p: &GatePolicy, i: int, s: Scan) -> (Flow, Scan) {
    let entry = s.pending.last();
    let popped = Scan { pending: s.pending.drop_last(), ..s };
    if p.nesting == Nesting::Interleaved && s.envs != entry.envs_at_push {
        if entry.settled {
            (Flow::Refuse, popped)
        } else {
            (Flow::Refuse, Scan { live: s.live.drop_last(), log: s.log.push((entry.opener, None)), ..popped })
        }
    } else if entry.settled {
        (Flow::Go, popped)
    } else {
        let balanced = !p.closer_needs_env_balance || s.envs == entry.envs_at_push;
        let paired = balanced && p.mate@[entry.opener as int] == p.mate@[i];
        let next = Scan {
            live: s.live.drop_last(),
            log: s.log.push((entry.opener, if paired { Some(i as usize) } else { None })),
            ..popped
        };
        (if next.live.len() == 0 { Flow::Stop } else { Flow::Go }, next)
    }
}

/// Reading the start of an environment.
pub open spec fn step_begin(w: &Walk, p: &GatePolicy, i: int, s: Scan) -> (Flow, Scan) {
    if (p.macrocode_frame_anchors && w.tokens@[i].macrocode) || p.env_anchor == EnvAnchor::Refutes {
        (Flow::Refuse, s)
    } else {
        (Flow::Go, Scan { envs: s.envs + 1, ..s })
    }
}

/// Reading the end of an environment.
pub open spec fn step_end(w: &Walk, p: &GatePolicy, i: int, s: Scan) -> (Flow, Scan) {
    if p.env_anchor == EnvAnchor::Refutes {
        (Flow::Refuse, s)
    } else if p.env_end_unwinds_openers {
        let (matched, next) = unwind(w, s, w.tokens@[i].end_name);
        (if !matched || next.live.len() == 0 { Flow::Refuse } else { Flow::Go }, next)
    } else {
        match p.nesting {
            Nesting::Interleaved => if s.pending.len() > 0 && s.pending.last().envs_at_push == s.envs {
                (Flow::Refuse, s)
            } else {
                (Flow::Go, Scan { envs: s.envs - 1, ..s })
            },
            Nesting::Counted => {
                let next = settle_level(s);
                if next.live.len() == 0 {
                    (Flow::Stop, next)
                } else {
                    (Flow::Go, Scan { envs: next.envs - 1, ..next })
                }
            },
        }
    }
}

/// Reading a token that is neither white space, nor a brace, nor math.
pub open spec fn step_other(w: &Walk, p: &GatePolicy, i: int, s: Scan) -> (Flow, Scan) {
    let t = w.tokens@[i];
    if !s.transparent && s.depth == 0 && p.opens@[i] {
        let envs = if p.opener_is_env_begin { s.envs + 1 } else { s.envs };
        (
            Flow::Go,
            Scan {
                envs,
                live: s.live.push(s.pending.len() as usize),
                pending: s.pending.push(Entry { opener: i as usize, envs_at_push: envs as usize, settled: false }),
                ..s
            },
        )
    } else if !s.transparent && s.depth == 0 && p.closes@[i] {
        step_close(w, p, i, s)
    } else if t.kind == SyntaxKind::ControlWord && (s.depth == 0 || p.anchors_at_any_depth) && (
    p.env_anchor_in_macro_code || !t.macro_code) {
        if t.env_begin {
            step_begin(w, p, i, s)
        } else if t.env_end {
            step_end(w, p, i, s)
        } else {
            (Flow::Go, s)
        }
    } else {
        (Flow::Go, s)
    }
}

/// The newline count starts over.
pub open spec fn fresh(r: (Flow, Scan)) -> (Flow, Scan) {
    (r.0, Scan { newlines: 0, ..r.1 })
}

/// Reading token `i`.
pub open spec fn step(w: &Walk, p: &GatePolicy, i: int, s: Scan) -> (Flow, Scan) {
    let t = w.tokens@[i];
    if t.kind == SyntaxKind::Newline {
        step_newline(p, s)
    } else if t.kind == SyntaxKind::Whitespace || t.kind == SyntaxKind::DocMargin {
        (Flow::Go, s)
    } else if t.kind == SyntaxKind::Guard {
        fresh((Flow::Go, s))
    } else if t.kind == SyntaxKind::Dollar && s.depth == 0 && p.dollar_anchor == DollarAnchor::Refutes {
        (Flow::Refuse, s)
    } else if t.kind == SyntaxKind::Dollar && s.depth == 0 && p.dollar_anchor == DollarAnchor::Transparent {
        fresh((Flow::Go, Scan { transparent: !s.transparent, ..s }))
    } else if t.kind == SyntaxKind::ControlSymbol && (s.depth == 0 || p.anchors_at_any_depth) && p.math@[i] {
        (Flow::Refuse, s)
    } else if t.kind == SyntaxKind::LBrace && !t.plain_brace {
        fresh((Flow::Go, Scan { depth: s.depth + 1, ..s }))
    } else if t.kind == SyntaxKind::RBrace && !t.plain_brace {
        if s.depth != 0 {
            fresh((Flow::Go, Scan { depth: s.depth - 1, ..s }))
        } else {
            match p.stray_brace {
                StrayBrace::RefutesInGroup => if w.in_group {
                    (Flow::Refuse, s)
                } else {
                    fresh((Flow::Go, s))
                },
                StrayBrace::ClosesInGroup => if w.in_group {
                    (Flow::Stop, Scan { log: settle_all(s, s.live.len() as int, Some(i as usize)), ..s })
                } else {
                    fresh((Flow::Go, s))
                },
                StrayBrace::RefutesAlways => (Flow::Refuse, s),
                StrayBrace::Ignored => fresh((Flow::Go, s)),
            }
        }
    } else {
        fresh(step_other(w, p, i, s))
    }
}

/// Where a scan ends at the latest.
pub open spec fn bound(w: &Walk, p: &GatePolicy) -> int {
    let n = w.tokens@.len() as int;
    let chunk = match w.macrocode_end {
        Some(end) => if end < n { end as int } else { n },
        None => n,
    };
    let last = match p.last_closer {
        Some(last) => last + 1,
        None => 0,
    };
    if last < chunk { last } else { chunk }
}

/// The verdicts of a scan that has reached token `i`.
pub open spec fn scan_from(w: &Walk, p: &GatePolicy, i: int, s: Scan) -> Seq<Pairing>
    decreases bound(w, p) - i,
{
    if i >= bound(w, p) {
        settle_all(s, s.live.len() as int, None)
    } else {
        let (flow, next) = step(w, p, i, s);
        match flow {
            Flow::Go => scan_from(w, p, i + 1, next),
            Flow::Refuse => settle_all(next, next.live.len() as int, None),
            Flow::Stop => next.log,
        }
    }
}

/// The verdicts of the scan that starts from `open`.
pub open spec fn batch(w: &Walk, p: &GatePolicy, open: usize) -> Seq<Pairing> {
    scan_from(w, p, open + 1, seeded(open))
}

/// The last verdict on an opener in a list, where there is one.
pub open spec fn find(log: Seq<Pairing>, opener: usize) -> Option<Option<usize>>
    decreases log.len(),
{
    if log.len() == 0 {
        None
    } else if log.last().0 == opener {
        Some(log.last().1)
    } else {
        find(log.drop_last(), opener)
    }
}

/// The closer of an opener: what the scan that starts from it decides.
pub open spec fn own_closer(w: &Walk, p: &GatePolicy, open: usize) -> Option<usize> {
    match p.last_closer {
        Some(_) => match find(batch(w, p, open), open) {
            Some(verdict) => verdict,
            None => None,
        },
        None => None,
    }
}

// ---- what every scan keeps -----------------------------------------------------------------

/// The places of `live` are those of the openers that are not settled, in order, and the
/// environment counts fit what the policy does with them.
pub open spec fn sound(p: &GatePolicy, s: Scan, i: int) -> bool {
    &&& s.live.len() > 0
    &&& s.pending.len() <= i
    &&& 0 <= s.depth <= i
    &&& 0 <= s.envs <= i
    &&& 0 <= s.newlines <= i
    &&& places(s)
    &&& forall|e: int| 0 <= e < s.pending.len() ==> (#[trigger] s.pending[e]).opener < i && s.pending[e].envs_at_push <= i
    &&& !p.env_end_unwinds_openers ==> levels(p, s)
}

/// The environment level of an opener is at most the present one, and at most that of the openers
/// inside it.
pub open spec fn levels(p: &GatePolicy, s: Scan) -> bool {
    match p.nesting {
        Nesting::Counted => {
            &&& forall|k: int| 0 <= k < s.live.len() ==> s.pending[#[trigger] s.live[k] as int].envs_at_push <= s.envs
            &&& forall|a: int, b: int|
                0 <= a < b < s.live.len() ==> s.pending[#[trigger] s.live[a] as int].envs_at_push
                    <= s.pending[#[trigger] s.live[b] as int].envs_at_push
        },
        Nesting::Interleaved => {
            &&& forall|e: int| 0 <= e < s.pending.len() ==> (#[trigger] s.pending[e]).envs_at_push <= s.envs
            &&& forall|a: int, b: int|
                0 <= a < b < s.pending.len() ==> (#[trigger] s.pending[a]).envs_at_push <= (#[trigger] s.pending[b]).envs_at_push
        },
    }
}

/// Without the last opener that is not settled, the rest are as they were.
pub(crate) proof fn lemma_settle_last(s: Scan)
    requires
        places(s),
        s.live.len() > 0,
    ensures
        places(
            Scan {
                pending: s.pending.update(
                    s.live.last() as int,
                    Entry { settled: true, ..s.pending[s.live.last() as int] },
                ),
                live: s.live.drop_last(),
                ..s
            },
        ),
{
    let at = s.live.last() as int;
    let next = Scan {
        pending: s.pending.update(at, Entry { settled: true, ..s.pending[at] }),
        live: s.live.drop_last(),
        ..s
    };
    assert(s.live[s.live.len() - 1] == at);
    assert forall|k: int| 0 <= k < next.live.len() implies (#[trigger] next.live[k]) < next.pending.len()
        && !next.pending[next.live[k] as int].settled by {
        assert(s.live[k] < s.live[s.live.len() - 1]);
    }
    assert forall|e: int| 0 <= e < next.pending.len() && !(#[trigger] next.pending[e]).settled implies next.live.contains(
        e as usize,
    ) by {
        assert(e != at);
        assert(!s.pending[e].settled);
        let k = choose|k: int| 0 <= k < s.live.len() && s.live[k] == e as usize;
        assert(k != s.live.len() - 1);
        assert(next.live[k] == e as usize);
    }
}

/// Without the innermost opener, the rest are as they were.
pub(crate) proof fn lemma_pop_last(s: Scan)
    requires
        places(s),
        s.pending.len() > 0,
    ensures
        !s.pending.last().settled ==> s.live.len() > 0 && s.live.last() == s.pending.len() - 1,
        places(
            Scan {
                pending: s.pending.drop_last(),
                live: if s.pending.last().settled { s.live } else { s.live.drop_last() },
                ..s
            },
        ),
{
    let last = s.pending.last();
    let n = s.pending.len() - 1;
    assert(s.pending[n] == last);
    if !last.settled {
        assert(s.live.contains(n as usize));
        let k = choose|k: int| 0 <= k < s.live.len() && s.live[k] == n as usize;
        if k < s.live.len() - 1 {
            assert(s.live[k] < s.live[s.live.len() - 1]);
            assert(s.live[s.live.len() - 1] < s.pending.len());
        }
    }
    let next = Scan {
        pending: s.pending.drop_last(),
        live: if last.settled { s.live } else { s.live.drop_last() },
        ..s
    };
    assert forall|k: int| 0 <= k < next.live.len() implies (#[trigger] next.live[k]) < next.pending.len()
        && !next.pending[next.live[k] as int].settled by {
        assert(!s.pending[s.live[k] as int].settled);
        if !last.settled {
            assert(s.live[k] < s.live[s.live.len() - 1]);
        } else {
            assert(s.live[k] != n);
        }
    }
    assert forall|e: int| 0 <= e < next.pending.len() && !(#[trigger] next.pending[e]).settled implies next.live.contains(
        e as usize,
    ) by {
        assert(!s.pending[e].settled);
        let k = choose|k: int| 0 <= k < s.live.len() && s.live[k] == e as usize;
        assert(next.live[k] == e as usize);
    }
}

/// The places of `live` are those of the openers that are not settled, in order.
pub open spec fn places(s: Scan) -> bool {
    &&& s.pending.len() <= usize::MAX
    &&& forall|k: int| 0 <= k < s.live.len() ==> (#[trigger] s.live[k]) < s.pending.len() && !s.pending[s.live[k] as int].settled
    &&& forall|a: int, b: int| 0 <= a < b < s.live.len() ==> (#[trigger] s.live[a]) < (#[trigger] s.live[b])
    &&& forall|e: int| 0 <= e < s.pending.len() && !(#[trigger] s.pending[e]).settled ==> s.live.contains(e as usize)
}

/// Settling a level keeps everything but the settled openers, and what is left stands below it.
pub(crate) proof fn lemma_settle_level(p: &GatePolicy, s: Scan)
    requires
        places(s),
    ensures
        places(settle_level(s)),
        settle_level(s).pending.len() == s.pending.len(),
        settle_level(s).depth == s.depth,
        settle_level(s).envs == s.envs,
        settle_level(s).newlines == s.newlines,
        settle_level(s).transparent == s.transparent,
        settle_level(s).live.len() <= s.live.len(),
        forall|e: int|
            0 <= e < s.pending.len() ==> (#[trigger] settle_level(s).pending[e]).opener == s.pending[e].opener
                && settle_level(s).pending[e].envs_at_push == s.pending[e].envs_at_push,
        forall|k: int| 0 <= k < settle_level(s).live.len() ==> #[trigger] settle_level(s).live[k] == s.live[k],
        settle_level(s).live.len() > 0 ==> s.pending[settle_level(s).live.last() as int].envs_at_push != s.envs,
    decreases s.live.len(),
{
    if s.live.len() > 0 {
        let at = s.live.last() as int;
        assert(s.live[s.live.len() - 1] == at);
        let entry = s.pending[at];
        if entry.envs_at_push == s.envs {
            lemma_settle_last(s);
            let next = Scan {
                pending: s.pending.update(at, Entry { settled: true, ..entry }),
                live: s.live.drop_last(),
                log: s.log.push((entry.opener, None)),
                ..s
            };
            assert(places(next));
            lemma_settle_level(p, next);
            if settle_level(next).live.len() > 0 {
                let m = settle_level(next).live.len() - 1;
                assert(settle_level(next).live[m] == next.live[m]);
            }
        }
    }
}

proof fn lemma_unwind(w: &Walk, s: Scan, name: Option<usize>, i: int)
    requires
        places(s),
        forall|e: int| 0 <= e < s.pending.len() ==> (#[trigger] s.pending[e]).envs_at_push <= i,
        0 <= s.envs <= i,
    ensures
        places(unwind(w, s, name).1),
        unwind(w, s, name).1.pending.len() <= s.pending.len(),
        unwind(w, s, name).1.pending == s.pending.take(unwind(w, s, name).1.pending.len() as int),
        unwind(w, s, name).1.depth == s.depth,
        unwind(w, s, name).1.newlines == s.newlines,
        unwind(w, s, name).1.transparent == s.transparent,
        0 <= unwind(w, s, name).1.envs <= i,
    decreases s.pending.len(),
{
    if s.pending.len() == 0 {
        assert(s.pending.take(0) =~= s.pending);
    } else {
        let entry = s.pending.last();
        assert(s.pending[s.pending.len() - 1] == entry);
        lemma_pop_last(s);
        let next = Scan {
            pending: s.pending.drop_last(),
            live: if entry.settled { s.live } else { s.live.drop_last() },
            envs: entry.envs_at_push as int,
            log: if entry.settled { s.log } else { s.log.push((entry.opener, None)) },
            ..s
        };
        assert(places(next));
        assert(next.pending =~= s.pending.take(next.pending.len() as int));
        if w.tokens@[entry.opener as int].begin_name != name {
            lemma_unwind(w, next, name, i);
            let m = unwind(w, next, name).1.pending.len() as int;
            assert(next.pending.take(m) =~= s.pending.take(m));
        }
    }
}

/// A scan that goes on stays sound.
pub(crate) proof fn lemma_step_sound(w: &Walk, p: &GatePolicy, i: int, s: Scan)
    requires
        sound(p, s, i),
        p.fits(w),
        0 <= i < w.tokens@.len(),
    ensures
        step(w, p, i, s).0 is Go ==> sound(p, step(w, p, i, s).1, i + 1),
{
    let t = w.tokens@[i];
    let next = step(w, p, i, s).1;
    assert(w.tokens.len() == w.tokens@.len());
    if t.kind == SyntaxKind::Newline {
        let s1 = Scan { newlines: s.newlines + 1, ..s };
        assert(places(s1));
        lemma_settle_level(p, s1);
        assert(s.pending.len() > 0) by {
            assert(s.live[0] < s.pending.len());
        }
        lemma_pop_last(s1);
        if p.nesting == Nesting::Interleaved && !s1.pending.last().settled {
            lemma_settle_last(s1);
        }
        if next.live.len() > 0 && !p.env_end_unwinds_openers && p.nesting == Nesting::Counted && next.live.len() < s.live.len() {
            assert forall|k: int| 0 <= k < next.live.len() implies next.pending[#[trigger] next.live[k] as int].envs_at_push
                <= next.envs by {
                assert(next.live[k] == s.live[k]);
            }
        }
    } else if step(w, p, i, s).0 is Go {
        assert(s.pending.len() > 0) by {
            assert(s.live[0] < s.pending.len());
        }
        if t.kind == SyntaxKind::Whitespace || t.kind == SyntaxKind::DocMargin || t.kind == SyntaxKind::Guard {
        } else if t.kind == SyntaxKind::Dollar && s.depth == 0 && p.dollar_anchor == DollarAnchor::Transparent {
        } else if (t.kind == SyntaxKind::LBrace || t.kind == SyntaxKind::RBrace) && !t.plain_brace {
        } else {
            lemma_other_sound(w, p, i, s);
        }
    }
}

#[verifier::rlimit(50)]
proof fn lemma_other_sound(w: &Walk, p: &GatePolicy, i: int, s: Scan)
    requires
        sound(p, s, i),
        p.fits(w),
        0 <= i < w.tokens@.len(),
    ensures
        step_other(w, p, i, s).0 is Go ==> sound(p, Scan { newlines: 0, ..step_other(w, p, i, s).1 }, i + 1),
{
    let t = w.tokens@[i];
    assert(w.tokens.len() == w.tokens@.len());
    assert(s.pending.len() > 0) by {
        assert(s.live[0] < s.pending.len());
    }
    let next = step_other(w, p, i, s).1;
    if !s.transparent && s.depth == 0 && p.opens@[i] {
        assert forall|e: int| 0 <= e < next.pending.len() && !(#[trigger] next.pending[e]).settled implies next.live.contains(
            e as usize,
        ) by {
            if e < s.pending.len() {
                assert(!s.pending[e].settled);
                let k = choose|k: int| 0 <= k < s.live.len() && s.live[k] == e as usize;
                assert(next.live[k] == e as usize);
            } else {
                assert(next.live[next.live.len() - 1] == e as usize);
            }
        }
    } else if !s.transparent && s.depth == 0 && p.closes@[i] {
        lemma_pop_last(s);
    } else if t.kind == SyntaxKind::ControlWord && (s.depth == 0 || p.anchors_at_any_depth) && (
    p.env_anchor_in_macro_code || !t.macro_code) && !t.env_begin && t.env_end {
        if p.env_end_unwinds_openers {
            lemma_unwind(w, s, t.end_name, i);
        } else {
            lemma_settle_level(p, s);
            if p.nesting == Nesting::Counted {
                let mid = settle_level(s);
                if mid.live.len() > 0 {
                    let m = mid.live.len() - 1;
                    assert(mid.live[m] == s.live[m]);
                    assert forall|k: int| 0 <= k < mid.live.len() implies mid.pending[#[trigger] mid.live[k] as int].envs_at_push
                        <= s.envs - 1 by {
                        assert(mid.live[k] == s.live[k]);
                        if k < m {
                            assert(s.pending[s.live[k] as int].envs_at_push <= s.pending[s.live[m] as int].envs_at_push);
                        }
                    }
                }
            } else {
                let m = s.pending.len() - 1;
                assert forall|e: int| 0 <= e < s.pending.len() && s.pending.last().envs_at_push != s.envs implies (
                #[trigger] s.pending[e]).envs_at_push <= s.envs - 1 by {
                    if e < m {
                        assert(s.pending[e].envs_at_push <= s.pending[m].envs_at_push);
                    }
                }
            }
        }
    }
}

// ---- the scan as a program -----------------------------------------------------------------

struct Scanner {
    pending: Vec<Entry>,
    live: Vec<usize>,
    depth: usize,
    envs: usize,
    newlines: usize,
    transparent: bool,
    log: Vec<Pairing>,
}

impl Scanner {
    spec fn state(&self) -> Scan {
        Scan {
            pending: self.pending@,
            live: self.live@,
            depth: self.depth as int,
            envs: self.envs as int,
            newlines: self.newlines as int,
            transparent: self.transparent,
            log: self.log@,
        }
    }

    fn settle_level(&mut self)
        requires
            places(old(self).state()),
        ensures
            final(self).state() == settle_level(old(self).state()),
    {
        let ghost start = self.state();
        while self.live.len() > 0
            invariant_except_break
                settle_level(self.state()) == settle_level(start),
            invariant
                places(self.state()),
            ensures
                self.state() == settle_level(start),
            decreases self.live@.len(),
        {
            let at: usize = self.live[self.live.len() - 1];
            assert(self.live@[self.live@.len() - 1] == at);
            let entry = self.pending[at];
            if entry.envs_at_push != self.envs {
                break;
            }
            let ghost before = self.state();
            proof {
                lemma_settle_last(before);
            }
            self.pending.set(at, Entry { opener: entry.opener, envs_at_push: entry.envs_at_push, settled: true });
            self.log.push((entry.opener, None));
            self.live.pop();
            proof {
                assert(before.live.last() == at);
                assert(self.live@ =~= before.live.drop_last());
            }
        }
    }

    fn settle_innermost(&mut self)
        requires
            places(old(self).state()),
        ensures
            final(self).state() == settle_innermost(old(self).state()),
    {
        let n: usize = self.pending.len();
        if n == 0 {
            return;
        }
        let entry = self.pending[n - 1];
        if entry.settled || entry.envs_at_push != self.envs {
            return;
        }
        let ghost before = self.state();
        proof {
            lemma_pop_last(before);
        }
        self.pending.set(n - 1, Entry { opener: entry.opener, envs_at_push: entry.envs_at_push, settled: true });
        self.log.push((entry.opener, None));
        self.live.pop();
        assert(self.live@ =~= before.live.drop_last());
    }

    fn settle_all(&mut self, closer: Option<usize>)
        requires
            places(old(self).state()),
        ensures
            final(self).state() == (Scan {
                log: settle_all(old(self).state(), old(self).state().live.len() as int, closer),
                ..old(self).state()
            }),
    {
        let ghost start = self.state();
        let mut k: usize = 0;
        while k < self.live.len()
            invariant
                places(start),
                k <= self.live.len(),
                self.state() == (Scan { log: settle_all(start, k as int, closer), ..start }),
            decreases self.live@.len() - k,
        {
            let at: usize = self.live[k];
            assert(start.live[k as int] < start.pending.len());
            self.log.push((self.pending[at].opener, closer));
            k = k + 1;
        }
    }

    fn unwind(&mut self, w: &Walk, name: Option<usize>) -> (matched: bool)
        requires
            places(old(self).state()),
            forall|e: int| 0 <= e < old(self).pending@.len() ==> (#[trigger] old(self).pending@[e]).opener < w.tokens@.len(),
        ensures
            (matched, final(self).state()) == unwind(w, old(self).state(), name),
    {
        let ghost start = self.state();
        while self.pending.len() > 0
            invariant
                start == old(self).state(),
                places(self.state()),
                unwind(w, self.state(), name) == unwind(w, start, name),
                forall|e: int| 0 <= e < self.pending@.len() ==> (#[trigger] self.pending@[e]).opener < w.tokens@.len(),
            decreases self.pending@.len(),
        {
            let ghost before = self.state();
            proof {
                lemma_pop_last(before);
            }
            let entry = self.pending[self.pending.len() - 1];
            self.pending.pop();
            self.envs = entry.envs_at_push;
            if !entry.settled {
                self.live.pop();
                self.log.push((entry.opener, None));
            }
            proof {
                assert(self.pending@ =~= before.pending.drop_last());
                assert(!entry.settled ==> self.live@ =~= before.live.drop_last());
            }
            if w.tokens[entry.opener].begin_name == name {
                return true;
            }
        }
        false
    }

    fn newline(&mut self, p: &GatePolicy) -> (flow: Flow)
        requires
            places(old(self).state()),
            old(self).newlines < usize::MAX,
        ensures
            (flow, final(self).state()) == step_newline(p, old(self).state()),
    {
        self.newlines = self.newlines + 1;
        let anchored = match p.paragraph_anchor {
            ParagraphAnchor::Never => false,
            ParagraphAnchor::OwnLevel => self.depth == 0,
            ParagraphAnchor::AnyDepth => true,
        };
        if self.newlines < BLANK_LINE_NEWLINES || !anchored {
            return Flow::Go;
        }
        if p.paragraph_anchor == ParagraphAnchor::AnyDepth {
            return Flow::Refuse;
        }
        match p.nesting {
            Nesting::Counted => self.settle_level(),
            Nesting::Interleaved => self.settle_innermost(),
        }
        if self.live.len() == 0 {
            Flow::Stop
        } else {
            Flow::Go
        }
    }

    fn close(&mut self, w: &Walk, p: &GatePolicy, i: usize) -> (flow: Flow)
        requires
            p.fits(w),
            i < w.tokens@.len(),
            sound(p, old(self).state(), i as int),
        ensures
            (flow, final(self).state()) == step_close(w, p, i as int, old(self).state()),
    {
        let ghost before = self.state();
        proof {
            assert(before.live[0] < before.pending.len());
            lemma_pop_last(before);
        }
        let entry = self.pending[self.pending.len() - 1];
        assert(before.pending[before.pending.len() - 1] == entry);
        self.pending.pop();
        assert(self.pending@ =~= before.pending.drop_last());
        if p.nesting == Nesting::Interleaved && self.envs != entry.envs_at_push {
            if !entry.settled {
                self.live.pop();
                self.log.push((entry.opener, None));
                assert(self.live@ =~= before.live.drop_last());
            }
            return Flow::Refuse;
        }
        if entry.settled {
            return Flow::Go;
        }
        self.live.pop();
        assert(self.live@ =~= before.live.drop_last());
        let balanced = !p.closer_needs_env_balance || self.envs == entry.envs_at_push;
        let paired = balanced && p.mate[entry.opener] == p.mate[i];
        self.log.push((entry.opener, if paired { Some(i) } else { None }));
        if self.live.len() == 0 {
            Flow::Stop
        } else {
            Flow::Go
        }
    }

    fn env_end(&mut self, w: &Walk, p: &GatePolicy, i: usize) -> (flow: Flow)
        requires
            p.fits(w),
            i < w.tokens@.len(),
            sound(p, old(self).state(), i as int),
        ensures
            (flow, final(self).state()) == step_end(w, p, i as int, old(self).state()),
    {
        let ghost before = self.state();
        if p.env_anchor == EnvAnchor::Refutes {
            return Flow::Refuse;
        }
        if p.env_end_unwinds_openers {
            let matched = self.unwind(w, w.tokens[i].end_name);
            return if !matched || self.live.len() == 0 {
                Flow::Refuse
            } else {
                Flow::Go
            };
        }
        match p.nesting {
            Nesting::Interleaved => {
                let n: usize = self.pending.len();
                if n > 0 && self.pending[n - 1].envs_at_push == self.envs {
                    return Flow::Refuse;
                }
                proof {
                    assert(before.live[0] < before.pending.len());
                    assert(before.pending[before.pending.len() - 1].envs_at_push <= before.envs);
                }
                self.envs = self.envs - 1;
                Flow::Go
            },
            Nesting::Counted => {
                proof {
                    lemma_settle_level(p, before);
                }
                self.settle_level();
                if self.live.len() == 0 {
                    return Flow::Stop;
                }
                proof {
                    let m = self.live@.len() - 1;
                    assert(self.live@[m] == before.live[m]);
                    assert(before.pending[before.live[m] as int].envs_at_push <= before.envs);
                }
                self.envs = self.envs - 1;
                Flow::Go
            },
        }
    }

    fn other(&mut self, w: &Walk, p: &GatePolicy, i: usize) -> (flow: Flow)
        requires
            p.fits(w),
            i < w.tokens@.len(),
            sound(p, old(self).state(), i as int),
        ensures
            (flow, final(self).state()) == step_other(w, p, i as int, old(self).state()),
    {
        assert(i < w.tokens.len());
        let t = w.tokens[i];
        if !self.transparent && self.depth == 0 && p.opens[i] {
            if p.opener_is_env_begin {
                self.envs = self.envs + 1;
            }
            self.live.push(self.pending.len());
            self.pending.push(Entry { opener: i, envs_at_push: self.envs, settled: false });
            Flow::Go
        } else if !self.transparent && self.depth == 0 && p.closes[i] {
            self.close(w, p, i)
        } else if t.kind == SyntaxKind::ControlWord && (self.depth == 0 || p.anchors_at_any_depth) && (
        p.env_anchor_in_macro_code || !t.macro_code) {
            if t.env_begin {
                if (p.macrocode_frame_anchors && t.macrocode) || p.env_anchor == EnvAnchor::Refutes {
                    return Flow::Refuse;
                }
                self.envs = self.envs + 1;
                Flow::Go
            } else if t.env_end {
                self.env_end(w, p, i)
            } else {
                Flow::Go
            }
        } else {
            Flow::Go
        }
    }

    fn step(&mut self, w: &Walk, p: &GatePolicy, i: usize) -> (flow: Flow)
        requires
            p.fits(w),
            i < w.tokens@.len(),
            sound(p, old(self).state(), i as int),
        ensures
            (flow, final(self).state()) == step(w, p, i as int, old(self).state()),
    {
        assert(i < w.tokens.len());
        let t = w.tokens[i];
        if t.kind == SyntaxKind::Newline {
            return self.newline(p);
        }
        if t.kind == SyntaxKind::Whitespace || t.kind == SyntaxKind::DocMargin {
            return Flow::Go;
        }
        if t.kind == SyntaxKind::Guard {
            self.newlines = 0;
            return Flow::Go;
        }
        if t.kind == SyntaxKind::Dollar && self.depth == 0 && p.dollar_anchor == DollarAnchor::Refutes {
            return Flow::Refuse;
        }
        if t.kind == SyntaxKind::Dollar && self.depth == 0 && p.dollar_anchor == DollarAnchor::Transparent {
            self.transparent = !self.transparent;
            self.newlines = 0;
            return Flow::Go;
        }
        if t.kind == SyntaxKind::ControlSymbol && (self.depth == 0 || p.anchors_at_any_depth) && p.math[i] {
            return Flow::Refuse;
        }
        if t.kind == SyntaxKind::LBrace && !t.plain_brace {
            self.depth = self.depth + 1;
            self.newlines = 0;
            return Flow::Go;
        }
        if t.kind == SyntaxKind::RBrace && !t.plain_brace {
            if self.depth != 0 {
                self.depth = self.depth - 1;
                self.newlines = 0;
                return Flow::Go;
            }
            match p.stray_brace {
                StrayBrace::RefutesInGroup => {
                    if w.in_group {
                        return Flow::Refuse;
                    }
                },
                StrayBrace::ClosesInGroup => {
                    if w.in_group {
                        self.settle_all(Some(i));
                        return Flow::Stop;
                    }
                },
                StrayBrace::RefutesAlways => {
                    return Flow::Refuse;
                },
                StrayBrace::Ignored => {},
            }
            self.newlines = 0;
            return Flow::Go;
        }
        let flow = self.other(w, p, i);
        self.newlines = 0;
        flow
    }
}

/// The verdicts on the opener `open` and on every opener of its brace frame that its scan passes.
/// The verdict on each is the one that its own scan gives.
pub fn gate_batch(w: &Walk, p: &GatePolicy, open: usize) -> (log: Vec<Pairing>)
    requires
        p.fits(w),
        open < w.tokens@.len(),
    ensures
        log@ == batch(w, p, open),
{
    let mut s = Scanner {
        pending: Vec::new(),
        live: Vec::new(),
        depth: 0,
        envs: 0,
        newlines: 0,
        transparent: false,
        log: Vec::new(),
    };
    s.pending.push(Entry { opener: open, envs_at_push: 0, settled: false });
    s.live.push(0);
    let n: usize = w.tokens.len();
    let chunk: usize = match w.macrocode_end {
        Some(end) => if end < n {
            end
        } else {
            n
        },
        None => n,
    };
    let last: usize = match p.last_closer {
        Some(last) => last + 1,
        None => 0,
    };
    let end: usize = if last < chunk {
        last
    } else {
        chunk
    };
    let mut i: usize = open + 1;
    proof {
        assert(s.pending@ =~= seeded(open).pending);
        assert(s.live@ =~= seeded(open).live);
        assert(s.log@ =~= seeded(open).log);
        lemma_seeded_sound(p, open);
    }
    while i < end
        invariant
            p.fits(w),
            end == bound(w, p),
            end <= w.tokens@.len(),
            sound(p, s.state(), i as int),
            scan_from(w, p, i as int, s.state()) == batch(w, p, open),
        decreases end - i,
    {
        proof {
            lemma_step_sound(w, p, i as int, s.state());
            lemma_step_places(w, p, i as int, s.state());
        }
        match s.step(w, p, i) {
            Flow::Go => {},
            Flow::Refuse => {
                s.settle_all(None);
                return s.log;
            },
            Flow::Stop => {
                return s.log;
            },
        }
        i = i + 1;
    }
    s.settle_all(None);
    s.log
}

pub(crate) proof fn lemma_seeded_sound(p: &GatePolicy, open: usize)
    ensures
        sound(p, seeded(open), open + 1),
{
    let s = seeded(open);
    assert(s.live[0] == 0);
    assert forall|e: int| 0 <= e < s.pending.len() && !(#[trigger] s.pending[e]).settled implies s.live.contains(e as usize) by {
        assert(s.live[0] == e as usize);
    }
}

/// Whichever way a scan goes on, the places stay those of the openers that are not settled.
proof fn lemma_step_places(w: &Walk, p: &GatePolicy, i: int, s: Scan)
    requires
        sound(p, s, i),
        p.fits(w),
        0 <= i < w.tokens@.len(),
    ensures
        places(step(w, p, i, s).1),
{
    let t = w.tokens@[i];
    assert(w.tokens.len() == w.tokens@.len());
    assert(s.live[0] < s.pending.len());
    lemma_pop_last(s);
    lemma_settle_level(p, s);
    lemma_unwind(w, s, t.end_name, i);
    let s1 = Scan { newlines: s.newlines + 1, ..s };
    lemma_settle_level(p, s1);
    lemma_pop_last(s1);
    if !s1.pending.last().settled {
        lemma_settle_last(s1);
    }
    lemma_step_sound(w, p, i, s);
}

// ---- a verdict is the opener's own ---------------------------------------------------------

pub(crate) proof fn lemma_find_push(log: Seq<Pairing>, v: Pairing, o: usize)
    ensures
        find(log.push(v), o) == (if v.0 == o { Some(v.1) } else { find(log, o) }),
{
    assert(log.push(v).drop_last() =~= log);
}

/// No opener that is not settled is `o`.
pub(crate) open spec fn idle(s: Scan, o: usize) -> bool {
    forall|k: int| 0 <= k < s.live.len() ==> s.pending[#[trigger] s.live[k] as int].opener != o
}

pub(crate) proof fn lemma_quiet_level(s: Scan, o: usize)
    requires
        places(s),
        idle(s, o),
    ensures
        idle(settle_level(s), o),
        find(settle_level(s).log, o) == find(s.log, o),
    decreases s.live.len(),
{
    if s.live.len() > 0 {
        let at = s.live.last() as int;
        assert(s.live[s.live.len() - 1] == at);
        let entry = s.pending[at];
        if entry.envs_at_push == s.envs {
            lemma_settle_last(s);
            let next = Scan {
                pending: s.pending.update(at, Entry { settled: true, ..entry }),
                live: s.live.drop_last(),
                log: s.log.push((entry.opener, None)),
                ..s
            };
            assert forall|k: int| 0 <= k < next.live.len() implies next.pending[#[trigger] next.live[k] as int].opener != o by {
                assert(s.pending[s.live[k] as int].opener != o);
                assert(s.live[k] < s.live[s.live.len() - 1]);
            }
            lemma_find_push(s.log, (entry.opener, None), o);
            lemma_quiet_level(next, o);
        }
    }
}

pub(crate) proof fn lemma_quiet_all(s: Scan, k: int, closer: Option<usize>, o: usize)
    requires
        idle(s, o),
        0 <= k <= s.live.len(),
    ensures
        find(settle_all(s, k, closer), o) == find(s.log, o),
    decreases k,
{
    if k > 0 {
        lemma_quiet_all(s, k - 1, closer, o);
        assert(s.pending[s.live[k - 1] as int].opener != o);
        lemma_find_push(settle_all(s, k - 1, closer), (s.pending[s.live[k - 1] as int].opener, closer), o);
    }
}

proof fn lemma_quiet_pop(s: Scan, o: usize)
    requires
        places(s),
        idle(s, o),
        s.pending.len() > 0,
    ensures
        idle(
            Scan {
                pending: s.pending.drop_last(),
                live: if s.pending.last().settled { s.live } else { s.live.drop_last() },
                ..s
            },
            o,
        ),
        !s.pending.last().settled ==> s.pending.last().opener != o,
{
    lemma_pop_last(s);
    let live = if s.pending.last().settled { s.live } else { s.live.drop_last() };
    if !s.pending.last().settled {
        assert(s.pending[s.live[s.live.len() - 1] as int].opener != o);
    }
    assert forall|k: int| 0 <= k < live.len() implies s.pending.drop_last()[#[trigger] live[k] as int].opener != o by {
        assert(s.pending[s.live[k] as int].opener != o);
        assert(!s.pending[s.live[k] as int].settled);
        if !s.pending.last().settled {
            assert(s.live[k] < s.live[s.live.len() - 1]);
        }
    }
}

proof fn lemma_quiet_unwind(w: &Walk, s: Scan, name: Option<usize>, o: usize)
    requires
        places(s),
        idle(s, o),
    ensures
        idle(unwind(w, s, name).1, o),
        find(unwind(w, s, name).1.log, o) == find(s.log, o),
    decreases s.pending.len(),
{
    if s.pending.len() > 0 {
        let entry = s.pending.last();
        lemma_pop_last(s);
        lemma_quiet_pop(s, o);
        let next = Scan {
            pending: s.pending.drop_last(),
            live: if entry.settled { s.live } else { s.live.drop_last() },
            envs: entry.envs_at_push as int,
            log: if entry.settled { s.log } else { s.log.push((entry.opener, None)) },
            ..s
        };
        lemma_find_push(s.log, (entry.opener, None), o);
        if w.tokens@[entry.opener as int].begin_name != name {
            lemma_quiet_unwind(w, next, name, o);
        }
    }
}

/// A step decides nothing on an opener that does not wait.
proof fn lemma_quiet_step(w: &Walk, p: &GatePolicy, i: int, s: Scan, o: usize)
    requires
        sound(p, s, i),
        p.fits(w),
        0 <= i < w.tokens@.len(),
        idle(s, o),
    ensures
        find(step(w, p, i, s).1.log, o) == find(s.log, o),
        i != o ==> idle(step(w, p, i, s).1, o),
        step(w, p, i, s).0 is Refuse ==> idle(step(w, p, i, s).1, o),
{
    let t = w.tokens@[i];
    assert(w.tokens.len() == w.tokens@.len());
    assert(s.live[0] < s.pending.len());
    let s1 = Scan { newlines: s.newlines + 1, ..s };
    lemma_quiet_level(s, o);
    lemma_quiet_level(s1, o);
    lemma_quiet_all(s, s.live.len() as int, Some(i as usize), o);
    lemma_quiet_pop(s, o);
    lemma_pop_last(s);
    lemma_quiet_unwind(w, s, t.end_name, o);
    let entry = s.pending.last();
    lemma_find_push(s.log, (entry.opener, None), o);
    lemma_find_push(s.log, (entry.opener, Some(i as usize)), o);
    let inner = settle_innermost(s1);
    assert(idle(inner, o)) by {
        assert forall|k: int| 0 <= k < inner.live.len() implies inner.pending[#[trigger] inner.live[k] as int].opener != o by {
            assert(s.pending[s.live[k] as int].opener != o);
        }
    }
    if !s.transparent && s.depth == 0 && p.opens@[i] && i != o {
        let next = step_other(w, p, i, s).1;
        assert forall|k: int| 0 <= k < next.live.len() implies next.pending[#[trigger] next.live[k] as int].opener != o by {
            if k < s.live.len() {
                assert(s.pending[s.live[k] as int].opener != o);
            }
        }
    }
}

/// A scan decides nothing on an opener that it has left behind.
pub(crate) proof fn lemma_quiet_scan(w: &Walk, p: &GatePolicy, i: int, s: Scan, o: usize)
    requires
        sound(p, s, i),
        p.fits(w),
        o < i,
        idle(s, o),
    ensures
        find(scan_from(w, p, i, s), o) == find(s.log, o),
    decreases bound(w, p) - i,
{
    if i >= bound(w, p) {
        lemma_quiet_all(s, s.live.len() as int, None, o);
    } else {
        let next = step(w, p, i, s).1;
        lemma_quiet_step(w, p, i, s, o);
        lemma_step_sound(w, p, i, s);
        match step(w, p, i, s).0 {
            Flow::Go => lemma_quiet_scan(w, p, i + 1, next, o),
            Flow::Refuse => lemma_quiet_all(next, next.live.len() as int, None, o),
            Flow::Stop => {},
        }
    }
}

/// The openers stand in the order in which they were passed.
spec fn rising(s: Scan) -> bool {
    forall|a: int, b: int| 0 <= a < b < s.pending.len() ==> (#[trigger] s.pending[a]).opener < (#[trigger] s.pending[b]).opener
}

proof fn lemma_step_rising(w: &Walk, p: &GatePolicy, i: int, s: Scan)
    requires
        sound(p, s, i),
        p.fits(w),
        0 <= i < w.tokens@.len(),
        rising(s),
    ensures
        rising(step(w, p, i, s).1),
{
    let s1 = Scan { newlines: s.newlines + 1, ..s };
    assert(w.tokens.len() == w.tokens@.len());
    lemma_settle_level(p, s);
    lemma_settle_level(p, s1);
    lemma_unwind(w, s, w.tokens@[i].end_name, i);
}

/// The scan `own` of the opener at place `base` runs inside the scan `s`: what stands outside the
/// opener is missing from it, and its environment levels count from the opener's.
spec fn follows(s: Scan, own: Scan, base: int, outer: int) -> bool {
    &&& 0 <= base < s.pending.len()
    &&& 0 <= outer < s.live.len()
    &&& s.pending.len() == base + own.pending.len()
    &&& s.live.len() == outer + own.live.len()
    &&& s.live[outer] == base
    &&& s.envs == own.envs + s.pending[base].envs_at_push
    &&& s.depth == own.depth
    &&& s.newlines == own.newlines
    &&& s.transparent == own.transparent
    &&& forall|k: int|
        0 <= k < own.pending.len() ==> (#[trigger] own.pending[k]).opener == s.pending[base + k].opener
            && own.pending[k].settled == s.pending[base + k].settled && own.pending[k].envs_at_push
            + s.pending[base].envs_at_push == s.pending[base + k].envs_at_push
    &&& forall|k: int| 0 <= k < own.live.len() ==> (#[trigger] own.live[k]) + base == s.live[outer + k]
}

/// Both scans agree on `o`, and neither has a say on it any more.
spec fn decided(s: Scan, own: Scan, o: usize) -> bool {
    &&& find(s.log, o) == find(own.log, o)
    &&& find(own.log, o) is Some
    &&& idle(s, o)
    &&& idle(own, o)
}

proof fn lemma_follow_level(p: &GatePolicy, s: Scan, own: Scan, base: int, outer: int)
    requires
        places(s),
        places(own),
        rising(s),
        follows(s, own, base, outer),
        find(s.log, s.pending[base].opener) is None,
        find(own.log, s.pending[base].opener) is None,
    ensures
        ({
            let o = s.pending[base].opener;
            let (s2, own2) = (settle_level(s), settle_level(own));
            if own2.live.len() > 0 {
                follows(s2, own2, base, outer) && find(s2.log, o) is None && find(own2.log, o) is None
                    && s2.pending[base].opener == o
            } else {
                decided(s2, own2, o) && find(own2.log, o) == Some(None::<usize>)
            }
        }),
    decreases own.live.len(),
{
    let o = s.pending[base].opener;
    let at = s.live.last() as int;
    let own_at = own.live.last() as int;
    assert(own.live[own.live.len() - 1] + base == s.live[outer + own.live.len() - 1]);
    assert(at == own_at + base);
    assert(s.live[s.live.len() - 1] == at);
    assert(own_at < own.pending.len());
    let entry = s.pending[at];
    let own_entry = own.pending[own_at];
    assert(own_entry.opener == s.pending[base + own_at].opener);
    if entry.envs_at_push == s.envs {
        lemma_settle_last(s);
        lemma_settle_last(own);
        let s1 = Scan {
            pending: s.pending.update(at, Entry { settled: true, ..entry }),
            live: s.live.drop_last(),
            log: s.log.push((entry.opener, None)),
            ..s
        };
        let own1 = Scan {
            pending: own.pending.update(own_at, Entry { settled: true, ..own_entry }),
            live: own.live.drop_last(),
            log: own.log.push((own_entry.opener, None)),
            ..own
        };
        lemma_find_push(s.log, (entry.opener, None), o);
        lemma_find_push(own.log, (entry.opener, None), o);
        if own.live.len() == 1 {
            assert(own.live[0] + base == s.live[outer]);
            assert(at == base);
            assert(idle(s1, o)) by {
                assert forall|k: int| 0 <= k < s1.live.len() implies s1.pending[#[trigger] s1.live[k] as int].opener != o by {
                    assert(s.live[k] < s.live[s.live.len() - 1]);
                    assert(s.pending[s.live[k] as int].opener < s.pending[base].opener);
                }
            }
            lemma_quiet_level(s1, o);
            assert(settle_level(own1) == own1);
        } else {
            assert(s.live[outer] < s.live[s.live.len() - 1]);
            assert(at != base);
            assert(entry.opener != o) by {
                assert(s.pending[base].opener < s.pending[at].opener);
            }
            assert forall|k: int| 0 <= k < own1.live.len() implies (#[trigger] own1.live[k]) + base == s1.live[outer + k] by {
                assert(own.live[k] + base == s.live[outer + k]);
            }
            assert forall|k: int| 0 <= k < own1.pending.len() implies (#[trigger] own1.pending[k]).opener == s1.pending[base + k].opener
                && own1.pending[k].settled == s1.pending[base + k].settled && own1.pending[k].envs_at_push
                + s1.pending[base].envs_at_push == s1.pending[base + k].envs_at_push by {
                assert(own.pending[k].opener == s.pending[base + k].opener);
            }
            assert(s1.live[outer] == base);
            assert(follows(s1, own1, base, outer));
            lemma_follow_level(p, s1, own1, base, outer);
        }
    }
}

proof fn lemma_follow_all(s: Scan, own: Scan, base: int, outer: int, k: int, closer: Option<usize>)
    requires
        places(s),
        places(own),
        rising(s),
        follows(s, own, base, outer),
        find(s.log, s.pending[base].opener) is None,
        find(own.log, s.pending[base].opener) is None,
        0 <= k <= s.live.len(),
    ensures
        ({
            let o = s.pending[base].opener;
            &&& find(settle_all(s, k, closer), o) == (if k > outer { Some(closer) } else { None })
            &&& k > outer ==> find(settle_all(own, k - outer, closer), o) == Some(closer)
        }),
    decreases k,
{
    let o = s.pending[base].opener;
    if k > 0 {
        lemma_follow_all(s, own, base, outer, k - 1, closer);
        let at = s.live[k - 1] as int;
        lemma_find_push(settle_all(s, k - 1, closer), (s.pending[at].opener, closer), o);
        if k - 1 < outer {
            assert(s.live[k - 1] < s.live[outer]);
            assert(s.pending[at].opener < s.pending[base].opener);
        } else {
            let m = k - 1 - outer;
            assert(own.live[m] + base == s.live[outer + m]);
            let own_at = own.live[m] as int;
            assert(own.pending[own_at].opener == s.pending[base + own_at].opener);
            lemma_find_push(settle_all(own, m, closer), (own.pending[own_at].opener, closer), o);
            if m > 0 {
                assert(s.live[outer] < s.live[k - 1]);
                assert(s.pending[base].opener < s.pending[at].opener);
            }
        }
    }
}

#[verifier::spinoff_prover]
#[verifier::rlimit(40)]
proof fn lemma_follow_unwind(w: &Walk, s: Scan, own: Scan, base: int, outer: int, name: Option<usize>)
    requires
        places(s),
        places(own),
        rising(s),
        follows(s, own, base, outer),
        find(s.log, s.pending[base].opener) is None,
        find(own.log, s.pending[base].opener) is None,
    ensures
        ({
            let o = s.pending[base].opener;
            let (m, s2) = unwind(w, s, name);
            let (own_m, own2) = unwind(w, own, name);
            if own2.pending.len() > 0 {
                m && own_m && follows(s2, own2, base, outer) && find(s2.log, o) is None && find(own2.log, o) is None
                    && s2.pending[base].opener == o
            } else {
                decided(s2, own2, o) && find(own2.log, o) == Some(None::<usize>) && own2.live.len() == 0
            }
        }),
    decreases own.pending.len(),
{
    let o = s.pending[base].opener;
    let top = own.pending.len() - 1;
    let entry = s.pending.last();
    let own_entry = own.pending.last();
    assert(own.pending[top].opener == s.pending[base + top].opener);
    assert(own_entry == own.pending[top] && entry == s.pending[base + top]);
    lemma_pop_last(s);
    lemma_pop_last(own);
    let s1 = Scan {
        pending: s.pending.drop_last(),
        live: if entry.settled { s.live } else { s.live.drop_last() },
        envs: entry.envs_at_push as int,
        log: if entry.settled { s.log } else { s.log.push((entry.opener, None)) },
        ..s
    };
    let own1 = Scan {
        pending: own.pending.drop_last(),
        live: if own_entry.settled { own.live } else { own.live.drop_last() },
        envs: own_entry.envs_at_push as int,
        log: if own_entry.settled { own.log } else { own.log.push((own_entry.opener, None)) },
        ..own
    };
    lemma_find_push(s.log, (entry.opener, None), o);
    lemma_find_push(own.log, (entry.opener, None), o);
    assert(!s.pending[base].settled) by {
        assert(!s.pending[s.live[outer] as int].settled);
    }
    if top == 0 {
        assert(own.live.len() == 1) by {
            if own.live.len() > 1 {
                assert(own.live[0] < own.live[1]);
                assert(own.live[1] < own.pending.len());
            }
        }
        assert(idle(s1, o)) by {
            assert forall|k: int| 0 <= k < s1.live.len() implies s1.pending[#[trigger] s1.live[k] as int].opener != o by {
                assert(s.live[k] < s.live[outer]);
                assert(s.pending[s.live[k] as int].opener < s.pending[base].opener);
            }
        }
        lemma_quiet_unwind(w, s1, name, o);
        assert(unwind(w, own1, name) == (false, own1));
    } else {
        assert(entry.opener != o) by {
            assert(s.pending[base].opener < s.pending[base + top].opener);
        }
        assert(own1.live.len() > 0 && s1.live.len() == outer + own1.live.len()) by {
            if !entry.settled {
                assert(own.live.last() == top);
                if own.live.len() == 1 {
                    assert(own.live[0] + base == s.live[outer]);
                }
            }
        }
        assert forall|k: int| 0 <= k < own1.live.len() implies (#[trigger] own1.live[k]) + base == s1.live[outer + k] by {
            assert(own.live[k] + base == s.live[outer + k]);
        }
        assert forall|k: int| 0 <= k < own1.pending.len() implies (#[trigger] own1.pending[k]).opener == s1.pending[base + k].opener
            && own1.pending[k].settled == s1.pending[base + k].settled && own1.pending[k].envs_at_push
            + s1.pending[base].envs_at_push == s1.pending[base + k].envs_at_push by {
            assert(own.pending[k].opener == s.pending[base + k].opener);
        }
        assert(s1.live[outer] == base);
        assert(follows(s1, own1, base, outer));
        if w.tokens@[entry.opener as int].begin_name != name {
            lemma_follow_unwind(w, s1, own1, base, outer, name);
        }
    }
}


/// What one step leaves of the two scans.
spec fn stepped(r: (Flow, Scan), own: (Flow, Scan), base: int, outer: int, o: usize) -> bool {
    let on = follows(r.1, own.1, base, outer) && r.1.pending[base].opener == o && find(r.1.log, o) is None && find(
        own.1.log,
        o,
    ) is None;
    match own.0 {
        Flow::Go => r.0 is Go && on,
        Flow::Refuse => (r.0 is Refuse && on) || decided(r.1, own.1, o),
        Flow::Stop => find(r.1.log, o) == find(own.1.log, o) && find(own.1.log, o) is Some && (r.0 is Stop || idle(r.1, o)),
    }
}

proof fn lemma_follow_close(w: &Walk, p: &GatePolicy, i: int, s: Scan, own: Scan, base: int, outer: int)
    requires
        sound(p, s, i),
        sound(p, own, i),
        rising(s),
        follows(s, own, base, outer),
        find(s.log, s.pending[base].opener) is None,
        find(own.log, s.pending[base].opener) is None,
        p.fits(w),
        0 <= i < w.tokens@.len(),
    ensures
        stepped(step_close(w, p, i, s), step_close(w, p, i, own), base, outer, s.pending[base].opener),
{
    let o = s.pending[base].opener;
    let top = own.pending.len() - 1;
    let entry = s.pending.last();
    let own_entry = own.pending.last();
    assert(own.pending[top].opener == s.pending[base + top].opener);
    assert(own_entry == own.pending[top] && entry == s.pending[base + top]);
    lemma_pop_last(s);
    lemma_pop_last(own);
    lemma_find_push(s.log, (entry.opener, None), o);
    lemma_find_push(own.log, (entry.opener, None), o);
    lemma_find_push(s.log, (entry.opener, Some(i as usize)), o);
    lemma_find_push(own.log, (entry.opener, Some(i as usize)), o);
    assert(!s.pending[base].settled) by {
        assert(!s.pending[s.live[outer] as int].settled);
    }
    let s2 = step_close(w, p, i, s).1;
    let own2 = step_close(w, p, i, own).1;
    if top == 0 {
        assert(own.live.len() == 1) by {
            if own.live.len() > 1 {
                assert(own.live[0] < own.live[1]);
                assert(own.live[1] < own.pending.len());
            }
        }
        assert(idle(s2, o)) by {
            assert forall|k: int| 0 <= k < s2.live.len() implies s2.pending[#[trigger] s2.live[k] as int].opener != o by {
                assert(s.live[k] < s.live[outer]);
                assert(s.pending[s.live[k] as int].opener < s.pending[base].opener);
            }
        }
        assert(idle(own2, o));
    } else {
        assert(entry.opener != o) by {
            assert(s.pending[base].opener < s.pending[base + top].opener);
        }
        assert(own2.live.len() > 0 && s2.live.len() == outer + own2.live.len()) by {
            if !entry.settled {
                assert(own.live.last() == top);
                if own.live.len() == 1 {
                    assert(own.live[0] + base == s.live[outer]);
                }
            }
        }
        assert forall|k: int| 0 <= k < own2.live.len() implies (#[trigger] own2.live[k]) + base == s2.live[outer + k] by {
            assert(own.live[k] + base == s.live[outer + k]);
        }
        assert forall|k: int| 0 <= k < own2.pending.len() implies (#[trigger] own2.pending[k]).opener == s2.pending[base + k].opener
            && own2.pending[k].settled == s2.pending[base + k].settled && own2.pending[k].envs_at_push
            + s2.pending[base].envs_at_push == s2.pending[base + k].envs_at_push by {
            assert(own.pending[k].opener == s.pending[base + k].opener);
        }
        assert(s2.live[outer] == base);
        assert(follows(s2, own2, base, outer));
    }
}

proof fn lemma_follow_innermost(s: Scan, own: Scan, base: int, outer: int)
    requires
        places(s),
        places(own),
        rising(s),
        follows(s, own, base, outer),
        find(s.log, s.pending[base].opener) is None,
        find(own.log, s.pending[base].opener) is None,
    ensures
        ({
            let o = s.pending[base].opener;
            let (s2, own2) = (settle_innermost(s), settle_innermost(own));
            if own2.live.len() > 0 {
                follows(s2, own2, base, outer) && find(s2.log, o) is None && find(own2.log, o) is None
                    && s2.pending[base].opener == o
            } else {
                decided(s2, own2, o)
            }
        }),
{
    let o = s.pending[base].opener;
    let top = own.pending.len() - 1;
    let entry = s.pending.last();
    let own_entry = own.pending.last();
    assert(own.pending[top].opener == s.pending[base + top].opener);
    assert(own_entry == own.pending[top] && entry == s.pending[base + top]);
    lemma_pop_last(s);
    lemma_pop_last(own);
    lemma_find_push(s.log, (entry.opener, None), o);
    lemma_find_push(own.log, (entry.opener, None), o);
    let (s2, own2) = (settle_innermost(s), settle_innermost(own));
    assert(!s.pending[base].settled) by {
        assert(!s.pending[s.live[outer] as int].settled);
    }
    if !(entry.settled || entry.envs_at_push != s.envs) {
        if top == 0 {
            assert(own.live.len() == 1) by {
                if own.live.len() > 1 {
                    assert(own.live[0] < own.live[1]);
                    assert(own.live[1] < own.pending.len());
                }
            }
            assert(idle(s2, o)) by {
                assert forall|k: int| 0 <= k < s2.live.len() implies s2.pending[#[trigger] s2.live[k] as int].opener != o by {
                    assert(s.live[k] < s.live[outer]);
                    assert(s.pending[s.live[k] as int].opener < s.pending[base].opener);
                }
            }
        } else {
            assert(entry.opener != o) by {
                assert(s.pending[base].opener < s.pending[base + top].opener);
            }
            assert(own.live.last() == top);
            if own.live.len() == 1 {
                assert(own.live[0] + base == s.live[outer]);
            }
            assert forall|k: int| 0 <= k < own2.live.len() implies (#[trigger] own2.live[k]) + base == s2.live[outer + k] by {
                assert(own.live[k] + base == s.live[outer + k]);
            }
            assert forall|k: int| 0 <= k < own2.pending.len() implies (#[trigger] own2.pending[k]).opener
                == s2.pending[base + k].opener && own2.pending[k].settled == s2.pending[base + k].settled
                && own2.pending[k].envs_at_push + s2.pending[base].envs_at_push == s2.pending[base + k].envs_at_push by {
                assert(own.pending[k].opener == s.pending[base + k].opener);
            }
            assert(s2.live[outer] == base);
            assert(follows(s2, own2, base, outer));
        }
    }
}

proof fn lemma_follow_other(w: &Walk, p: &GatePolicy, i: int, s: Scan, own: Scan, base: int, outer: int)
    requires
        sound(p, s, i),
        sound(p, own, i),
        rising(s),
        follows(s, own, base, outer),
        find(s.log, s.pending[base].opener) is None,
        find(own.log, s.pending[base].opener) is None,
        p.fits(w),
        0 <= i < w.tokens@.len(),
    ensures
        stepped(step_other(w, p, i, s), step_other(w, p, i, own), base, outer, s.pending[base].opener),
{
    let t = w.tokens@[i];
    let o = s.pending[base].opener;
    assert(w.tokens.len() == w.tokens@.len());
    let (r, q) = (step_other(w, p, i, s), step_other(w, p, i, own));
    if !s.transparent && s.depth == 0 && p.opens@[i] {
        let (s2, own2) = (r.1, q.1);
        assert forall|k: int| 0 <= k < own2.live.len() implies (#[trigger] own2.live[k]) + base == s2.live[outer + k] by {
            if k < own.live.len() {
                assert(own.live[k] + base == s.live[outer + k]);
            }
        }
        assert forall|k: int| 0 <= k < own2.pending.len() implies (#[trigger] own2.pending[k]).opener == s2.pending[base + k].opener
            && own2.pending[k].settled == s2.pending[base + k].settled && own2.pending[k].envs_at_push
            + s2.pending[base].envs_at_push == s2.pending[base + k].envs_at_push by {
            if k < own.pending.len() {
                assert(own.pending[k].opener == s.pending[base + k].opener);
            }
        }
        assert(s2.live[outer] == base);
        assert(follows(s2, own2, base, outer));
    } else if !s.transparent && s.depth == 0 && p.closes@[i] {
        lemma_follow_close(w, p, i, s, own, base, outer);
    } else if t.kind == SyntaxKind::ControlWord && (s.depth == 0 || p.anchors_at_any_depth) && (
    p.env_anchor_in_macro_code || !t.macro_code) {
        if t.env_begin {
        } else if t.env_end && p.env_anchor != EnvAnchor::Refutes {
            if p.env_end_unwinds_openers {
                lemma_follow_unwind(w, s, own, base, outer, t.end_name);
                lemma_unwind(w, own, t.end_name, i);
                lemma_unwind(w, s, t.end_name, i);
                let own2 = unwind(w, own, t.end_name).1;
                if own2.pending.len() > 0 {
                    assert(own2.live.len() > 0);
                }
            } else if p.nesting == Nesting::Counted {
                lemma_follow_level(p, s, own, base, outer);
                lemma_settle_level(p, own);
                lemma_settle_level(p, s);
                let own2 = settle_level(own);
                if own2.live.len() > 0 {
                    let s2 = settle_level(s);
                    let (s3, own3) = (Scan { envs: s2.envs - 1, ..s2 }, Scan { envs: own2.envs - 1, ..own2 });
                    assert(follows(s3, own3, base, outer));
                } else {
                    let s2 = settle_level(s);
                    let s3 = Scan { envs: s2.envs - 1, ..s2 };
                    assert(idle(s2, o) ==> idle(s3, o));
                }
            } else {
                let top = own.pending.len() - 1;
                assert(own.pending[top].opener == s.pending[base + top].opener);
                let (s3, own3) = (Scan { envs: s.envs - 1, ..s }, Scan { envs: own.envs - 1, ..own });
                assert(follows(s3, own3, base, outer));
            }
        }
    }
}

proof fn lemma_follow_step(w: &Walk, p: &GatePolicy, i: int, s: Scan, own: Scan, base: int, outer: int)
    requires
        sound(p, s, i),
        sound(p, own, i),
        rising(s),
        follows(s, own, base, outer),
        find(s.log, s.pending[base].opener) is None,
        find(own.log, s.pending[base].opener) is None,
        p.fits(w),
        0 <= i < w.tokens@.len(),
    ensures
        stepped(step(w, p, i, s), step(w, p, i, own), base, outer, s.pending[base].opener),
{
    let t = w.tokens@[i];
    let o = s.pending[base].opener;
    if t.kind == SyntaxKind::Newline {
        let (s1, own1) = (Scan { newlines: s.newlines + 1, ..s }, Scan { newlines: own.newlines + 1, ..own });
        assert(follows(s1, own1, base, outer));
        lemma_follow_level(p, s1, own1, base, outer);
        lemma_follow_innermost(s1, own1, base, outer);
    } else if t.kind == SyntaxKind::Whitespace || t.kind == SyntaxKind::DocMargin {
    } else if t.kind == SyntaxKind::Guard {
        assert(follows(Scan { newlines: 0, ..s }, Scan { newlines: 0, ..own }, base, outer));
    } else if t.kind == SyntaxKind::Dollar && s.depth == 0 && p.dollar_anchor == DollarAnchor::Refutes {
    } else if t.kind == SyntaxKind::Dollar && s.depth == 0 && p.dollar_anchor == DollarAnchor::Transparent {
        assert(follows(
            Scan { newlines: 0, transparent: !s.transparent, ..s },
            Scan { newlines: 0, transparent: !own.transparent, ..own },
            base,
            outer,
        ));
    } else if t.kind == SyntaxKind::ControlSymbol && (s.depth == 0 || p.anchors_at_any_depth) && p.math@[i] {
    } else if t.kind == SyntaxKind::LBrace && !t.plain_brace {
        assert(follows(
            Scan { newlines: 0, depth: s.depth + 1, ..s },
            Scan { newlines: 0, depth: own.depth + 1, ..own },
            base,
            outer,
        ));
    } else if t.kind == SyntaxKind::RBrace && !t.plain_brace {
        if s.depth != 0 {
            assert(follows(
                Scan { newlines: 0, depth: s.depth - 1, ..s },
                Scan { newlines: 0, depth: own.depth - 1, ..own },
                base,
                outer,
            ));
        } else {
            assert(follows(Scan { newlines: 0, ..s }, Scan { newlines: 0, ..own }, base, outer));
            lemma_follow_all(s, own, base, outer, s.live.len() as int, Some(i as usize));
        }
    } else {
        lemma_follow_other(w, p, i, s, own, base, outer);
        let (r, q) = (step_other(w, p, i, s), step_other(w, p, i, own));
        if follows(r.1, q.1, base, outer) {
            assert(follows(fresh(r).1, fresh(q).1, base, outer));
        }
        if idle(r.1, o) {
            assert(idle(fresh(r).1, o));
        }
        if idle(q.1, o) {
            assert(idle(fresh(q).1, o));
        }
    }
}

proof fn lemma_follow_scan(w: &Walk, p: &GatePolicy, i: int, s: Scan, own: Scan, base: int, outer: int)
    requires
        sound(p, s, i),
        sound(p, own, i),
        rising(s),
        follows(s, own, base, outer),
        find(s.log, s.pending[base].opener) is None,
        find(own.log, s.pending[base].opener) is None,
        p.fits(w),
    ensures
        find(scan_from(w, p, i, s), s.pending[base].opener) == find(scan_from(w, p, i, own), s.pending[base].opener),
    decreases bound(w, p) - i,
{
    let o = s.pending[base].opener;
    assert(s.pending[base].opener < i);
    if i >= bound(w, p) {
        lemma_follow_all(s, own, base, outer, s.live.len() as int, None);
    } else {
        let (flow, s2) = step(w, p, i, s);
        let (own_flow, own2) = step(w, p, i, own);
        lemma_follow_step(w, p, i, s, own, base, outer);
        lemma_step_sound(w, p, i, s);
        lemma_step_sound(w, p, i, own);
        lemma_step_places(w, p, i, s);
        lemma_step_places(w, p, i, own);
        lemma_step_rising(w, p, i, s);
        if own_flow is Go {
            lemma_follow_scan(w, p, i + 1, s2, own2, base, outer);
        } else if flow is Refuse && own_flow is Refuse && follows(s2, own2, base, outer) && s2.pending[base].opener == o
            && find(s2.log, o) is None && find(own2.log, o) is None {
            lemma_follow_all(s2, own2, base, outer, s2.live.len() as int, None);
        } else {
            if own_flow is Refuse {
                lemma_quiet_all(own2, own2.live.len() as int, None, o);
            }
            if flow is Go {
                lemma_quiet_scan(w, p, i + 1, s2, o);
            } else if flow is Refuse {
                lemma_quiet_all(s2, s2.live.len() as int, None, o);
            }
        }
    }
}

/// A scan on its way to the opener `o` gives it the verdict of its own scan.
proof fn lemma_reach(w: &Walk, p: &GatePolicy, i: int, s: Scan, o: usize)
    requires
        sound(p, s, i),
        rising(s),
        p.fits(w),
        i <= o,
        find(s.log, o) is None,
    ensures
        find(scan_from(w, p, i, s), o) matches Some(v) ==> find(batch(w, p, o), o) == Some(v),
    decreases bound(w, p) - i,
{
    assert(idle(s, o)) by {
        assert forall|k: int| 0 <= k < s.live.len() implies s.pending[#[trigger] s.live[k] as int].opener != o by {
            assert(s.live[k] < s.pending.len());
        }
    }
    if i >= bound(w, p) {
        lemma_quiet_all(s, s.live.len() as int, None, o);
    } else {
        let (flow, next) = step(w, p, i, s);
        lemma_quiet_step(w, p, i, s, o);
        lemma_step_sound(w, p, i, s);
        lemma_step_rising(w, p, i, s);
        match flow {
            Flow::Stop => {},
            Flow::Refuse => lemma_quiet_all(next, next.live.len() as int, None, o),
            Flow::Go => {
                if i < o {
                    lemma_reach(w, p, i + 1, next, o);
                } else if idle(next, o) {
                    lemma_quiet_scan(w, p, i + 1, next, o);
                } else {
                    let own = seeded(o);
                    let base = s.pending.len() as int;
                    let outer = s.live.len() as int;
                    assert(w.tokens.len() == w.tokens@.len());
                    lemma_pushed(w, p, i, s, o);
                    lemma_seeded_sound(p, o);
                    lemma_follow_scan(w, p, i + 1, next, own, base, outer);
                }
            },
        }
    }
}

/// An opener that starts to wait does so on top of the others.
proof fn lemma_pushed(w: &Walk, p: &GatePolicy, i: int, s: Scan, o: usize)
    requires
        sound(p, s, i),
        p.fits(w),
        0 <= i < w.tokens@.len(),
        i == o,
        idle(s, o),
        step(w, p, i, s).0 is Go,
        !idle(step(w, p, i, s).1, o),
    ensures
        follows(step(w, p, i, s).1, seeded(o), s.pending.len() as int, s.live.len() as int),
        step(w, p, i, s).1.pending[s.pending.len() as int].opener == o,
{
    let t = w.tokens@[i];
    assert(w.tokens.len() == w.tokens@.len());
    assert(s.live[0] < s.pending.len());
    let s1 = Scan { newlines: s.newlines + 1, ..s };
    lemma_quiet_level(s, o);
    lemma_quiet_level(s1, o);
    lemma_quiet_pop(s, o);
    lemma_pop_last(s);
    lemma_quiet_unwind(w, s, t.end_name, o);
    let inner = settle_innermost(s1);
    assert(idle(inner, o)) by {
        assert forall|k: int| 0 <= k < inner.live.len() implies inner.pending[#[trigger] inner.live[k] as int].opener != o by {
            assert(s.pending[s.live[k] as int].opener != o);
        }
    }
    let (flow, next) = step(w, p, i, s);
    if !s.transparent && s.depth == 0 && p.opens@[i] && next.pending.len() == s.pending.len() + 1 {
        assert(next.pending.last().opener == i);
    } else {
        assert(idle(next, o)) by {
            assert forall|k: int| 0 <= k < next.live.len() implies next.pending[#[trigger] next.live[k] as int].opener != o by {
            }
        }
    }
}

/// The verdict that a scan gives on an opener that it passes is the one that the opener's own
/// scan gives.
pub proof fn batched_verdicts_are_the_openers_own(w: &Walk, p: &GatePolicy, open: usize, o: usize)
    requires
        p.fits(w),
        open < w.tokens@.len(),
    ensures
        find(batch(w, p, open), o) matches Some(v) ==> find(batch(w, p, o), o) == Some(v),
{
    let s = seeded(open);
    lemma_seeded_sound(p, open);
    if o > open {
        lemma_reach(w, p, open + 1, s, o);
    } else if o < open {
        assert(idle(s, o)) by {
            assert forall|k: int| 0 <= k < s.live.len() implies s.pending[#[trigger] s.live[k] as int].opener != o by {
            }
        }
        lemma_quiet_scan(w, p, open + 1, s, o);
    }
}

/// Every scan settles the opener that it starts from.
pub proof fn a_scan_settles_its_opener(w: &Walk, p: &GatePolicy, open: usize)
    requires
        p.fits(w),
        open < w.tokens@.len(),
    ensures
        find(batch(w, p, open), open) is Some,
{
    lemma_seeded_sound(p, open);
    lemma_settles(w, p, open + 1, seeded(open));
}

proof fn lemma_settles(w: &Walk, p: &GatePolicy, i: int, s: Scan)
    requires
        sound(p, s, i),
        rising(s),
        p.fits(w),
        follows(s, s, 0, 0),
        find(s.log, s.pending[0].opener) is None,
    ensures
        find(scan_from(w, p, i, s), s.pending[0].opener) is Some,
    decreases bound(w, p) - i,
{
    let o = s.pending[0].opener;
    if i >= bound(w, p) {
        lemma_follow_all(s, s, 0, 0, s.live.len() as int, None);
    } else {
        let (flow, next) = step(w, p, i, s);
        lemma_follow_step(w, p, i, s, s, 0, 0);
        lemma_step_sound(w, p, i, s);
        lemma_step_places(w, p, i, s);
        lemma_step_rising(w, p, i, s);
        if flow is Go {
            lemma_settles(w, p, i + 1, next);
        } else if flow is Refuse {
            if decided(next, next, o) {
                lemma_quiet_all(next, next.live.len() as int, None, o);
            } else {
                lemma_follow_all(next, next, 0, 0, next.live.len() as int, None);
            }
        }
    }
}

// ---- asking --------------------------------------------------------------------------------

/// Whether each closer in a list of verdicts stands behind `lo` and before `hi`.
pub open spec fn closers_between(log: Seq<Pairing>, lo: int, hi: int) -> bool {
    forall|k: int| 0 <= k < log.len() ==> ((#[trigger] log[k]).1 matches Some(c) ==> lo < c < hi)
}

proof fn lemma_level_closers(s: Scan, lo: int, hi: int)
    requires
        closers_between(s.log, lo, hi),
    ensures
        closers_between(settle_level(s).log, lo, hi),
    decreases s.live.len(),
{
    if s.live.len() > 0 {
        let at = s.live.last() as int;
        let entry = s.pending[at];
        if entry.envs_at_push == s.envs {
            lemma_level_closers(
                Scan {
                    pending: s.pending.update(at, Entry { settled: true, ..entry }),
                    live: s.live.drop_last(),
                    log: s.log.push((entry.opener, None)),
                    ..s
                },
                lo,
                hi,
            );
        }
    }
}

proof fn lemma_all_closers(s: Scan, k: int, closer: Option<usize>, lo: int, hi: int)
    requires
        closers_between(s.log, lo, hi),
        closer matches Some(c) ==> lo < c < hi,
    ensures
        closers_between(settle_all(s, k, closer), lo, hi),
    decreases k,
{
    if 0 < k <= s.live.len() {
        lemma_all_closers(s, k - 1, closer, lo, hi);
    }
}

proof fn lemma_unwind_closers(w: &Walk, s: Scan, name: Option<usize>, lo: int, hi: int)
    requires
        closers_between(s.log, lo, hi),
    ensures
        closers_between(unwind(w, s, name).1.log, lo, hi),
    decreases s.pending.len(),
{
    if s.pending.len() > 0 {
        let entry = s.pending.last();
        let next = Scan {
            pending: s.pending.drop_last(),
            live: if entry.settled { s.live } else { s.live.drop_last() },
            envs: entry.envs_at_push as int,
            log: if entry.settled { s.log } else { s.log.push((entry.opener, None)) },
            ..s
        };
        lemma_unwind_closers(w, next, name, lo, hi);
    }
}

proof fn lemma_scan_closers(w: &Walk, p: &GatePolicy, i: int, s: Scan, lo: int)
    requires
        closers_between(s.log, lo, bound(w, p)),
        lo < i,
        0 <= i,
    ensures
        closers_between(scan_from(w, p, i, s), lo, bound(w, p)),
    decreases bound(w, p) - i,
{
    let hi = bound(w, p);
    lemma_all_closers(s, s.live.len() as int, None, lo, hi);
    if i < hi {
        lemma_all_closers(s, s.live.len() as int, Some(i as usize), lo, hi);
        assert(w.tokens.len() == w.tokens@.len());
        let s1 = Scan { newlines: s.newlines + 1, ..s };
        lemma_level_closers(s, lo, hi);
        lemma_level_closers(s1, lo, hi);
        lemma_unwind_closers(w, s, w.tokens@[i].end_name, lo, hi);
        let (flow, next) = step(w, p, i, s);
        assert(closers_between(settle_innermost(s1).log, lo, hi));
        assert(closers_between(step_newline(p, s).1.log, lo, hi));
        assert(closers_between(step_close(w, p, i, s).1.log, lo, hi));
        assert(closers_between(step_end(w, p, i, s).1.log, lo, hi));
        assert(closers_between(step_other(w, p, i, s).1.log, lo, hi));
        assert(closers_between(next.log, lo, hi));
        lemma_all_closers(next, next.live.len() as int, None, lo, hi);
        lemma_scan_closers(w, p, i + 1, next, lo);
    }
}

proof fn lemma_found(log: Seq<Pairing>, o: usize)
    ensures
        find(log, o) matches Some(v) ==> exists|k: int| 0 <= k < log.len() && #[trigger] log[k] == (o, v),
    decreases log.len(),
{
    if log.len() > 0 {
        if log.last().0 == o {
            assert(log[log.len() - 1] == (o, log.last().1));
        } else {
            lemma_found(log.drop_last(), o);
            if let Some(v) = find(log.drop_last(), o) {
                let k = choose|k: int| 0 <= k < log.len() - 1 && #[trigger] log.drop_last()[k] == (o, v);
                assert(log[k] == (o, v));
            }
        }
    }
}

/// A closer stands behind its opener, and is none later than the last closer of the file.
pub proof fn a_closer_stands_behind_its_opener(w: &Walk, p: &GatePolicy, open: usize)
    ensures
        own_closer(w, p, open) matches Some(c) ==> open < c && (p.last_closer matches Some(last) && c <= last),
{
    lemma_scan_closers(w, p, open + 1, seeded(open), open as int);
    lemma_found(batch(w, p, open), open);
}

proof fn lemma_same_unwind(w: &Walk, other: &Walk, s: Scan, name: Option<usize>)
    requires
        w.tokens@ == other.tokens@,
    ensures
        unwind(w, s, name) == unwind(other, s, name),
    decreases s.pending.len(),
{
    if s.pending.len() > 0 {
        let entry = s.pending.last();
        let next = Scan {
            pending: s.pending.drop_last(),
            live: if entry.settled { s.live } else { s.live.drop_last() },
            envs: entry.envs_at_push as int,
            log: if entry.settled { s.log } else { s.log.push((entry.opener, None)) },
            ..s
        };
        lemma_same_unwind(w, other, next, name);
    }
}

proof fn lemma_same_scan(w: &Walk, other: &Walk, p: &GatePolicy, i: int, s: Scan)
    requires
        w.tokens@ == other.tokens@,
        w.key() == other.key(),
    ensures
        scan_from(w, p, i, s) == scan_from(other, p, i, s),
    decreases bound(w, p) - i,
{
    assert(w.macrocode_end == w.key().macrocode_end && other.macrocode_end == other.key().macrocode_end);
    assert(w.in_group == w.key().in_group && other.in_group == other.key().in_group);
    if i < bound(w, p) {
        lemma_same_unwind(w, other, s, w.tokens@[i].end_name);
        assert(step(w, p, i, s) == step(other, p, i, s));
        lemma_same_scan(w, other, p, i + 1, step(w, p, i, s).1);
    }
}

/// A scan reads nothing of where the parse stands but what the key holds: over the same tokens and
/// under the same key it gives the same verdicts.
pub proof fn the_key_is_all_a_scan_reads(w: &Walk, other: &Walk, p: &GatePolicy, open: usize)
    requires
        w.tokens@ == other.tokens@,
        w.key() == other.key(),
    ensures
        batch(w, p, open) == batch(other, p, open),
        own_closer(w, p, open) == own_closer(other, p, open),
{
    lemma_same_scan(w, other, p, open + 1, seeded(open));
}

/// What is kept of an earlier scan stays right wherever the parse goes on over the same tokens: it
/// is only used under its own key.
pub proof fn kept_verdicts_stay_right(memo: Option<GateBatch>, w: &Walk, other: &Walk, p: &GatePolicy)
    requires
        w.tokens@ == other.tokens@,
        coherent(memo, w, p),
        memo matches Some(b) ==> b.key == w.key(),
    ensures
        coherent(memo, other, p),
{
    if let Some(b) = memo {
        if b.key == other.key() {
            assert forall|o: usize| #[trigger] b.verdicts@.contains_key(o) implies find(batch(other, p, o), o) == Some(
                b.verdicts@[o],
            ) by {
                the_key_is_all_a_scan_reads(w, other, p, o);
            }
        }
    }
}

/// The verdicts of one scan, and what it read of where the parse stood.
pub struct GateBatch {
    pub key: WalkKey,
    /// The closer of each opener that the scan settled.
    pub verdicts: HashMap<usize, Option<usize>>,
}

/// What is kept of an earlier scan is right for the present one: where the parse stands where the
/// earlier scan started, the kept verdicts are the openers' own.
pub open spec fn coherent(memo: Option<GateBatch>, w: &Walk, p: &GatePolicy) -> bool {
    memo matches Some(b) ==> b.key == w.key() ==> forall|o: usize| #[trigger]
        b.verdicts@.contains_key(o) ==> find(batch(w, p, o), o) == Some(b.verdicts@[o])
}

/// Whether what is kept settles the opener.
pub open spec fn settles(memo: Option<GateBatch>, w: &Walk, open: usize) -> bool {
    memo matches Some(b) && b.key == w.key() && b.verdicts@.contains_key(open)
}

/// A list of verdicts by opener. The last verdict on an opener counts.
pub open spec fn by_opener(log: Seq<Pairing>) -> Map<usize, Option<usize>>
    decreases log.len(),
{
    if log.len() == 0 {
        Map::empty()
    } else {
        by_opener(log.drop_last()).insert(log.last().0, log.last().1)
    }
}

proof fn lemma_by_opener(log: Seq<Pairing>, o: usize)
    ensures
        by_opener(log).contains_key(o) <==> find(log, o) is Some,
        find(log, o) matches Some(v) ==> by_opener(log)[o] == v,
    decreases log.len(),
{
    if log.len() > 0 {
        lemma_by_opener(log.drop_last(), o);
    }
}

fn tabulate(log: &Vec<Pairing>) -> (r: HashMap<usize, Option<usize>>)
    ensures
        r@ == by_opener(log@),
{
    broadcast use vstd::std_specs::hash::group_hash_axioms;

    let mut out: HashMap<usize, Option<usize>> = HashMap::new();
    let mut i: usize = 0;
    while i < log.len()
        invariant
            i <= log.len(),
            out@ == by_opener(log@.take(i as int)),
        decreases log.len() - i,
    {
        assert(log@.take(i + 1).drop_last() =~= log@.take(i as int));
        out.insert(log[i].0, log[i].1);
        i = i + 1;
    }
    assert(log@.take(i as int) =~= log@);
    out
}

fn lookup(log: &Vec<Pairing>, opener: usize) -> (r: Option<Option<usize>>)
    ensures
        r == find(log@, opener),
{
    let mut n: usize = log.len();
    assert(log@.take(n as int) =~= log@);
    while n > 0
        invariant
            n <= log.len(),
            find(log@.take(n as int), opener) == find(log@, opener),
        decreases n,
    {
        assert(log@.take(n as int).drop_last() =~= log@.take(n as int - 1));
        if log[n - 1].0 == opener {
            return Some(log[n - 1].1);
        }
        n = n - 1;
    }
    None
}

/// The closer of an opener, from the kept verdicts where they settle it. Otherwise a scan from the
/// opener settles it, and its verdicts are kept.
pub fn gated_closer(w: &Walk, p: &GatePolicy, open: usize, memo: &mut Option<GateBatch>) -> (r: Option<usize>)
    requires
        p.fits(w),
        open < w.tokens@.len(),
        coherent(*old(memo), w, p),
    ensures
        r == own_closer(w, p, open),
        r matches Some(c) ==> open < c && (p.last_closer matches Some(last) && c <= last),
        coherent(*final(memo), w, p),
        p.last_closer is None || settles(*old(memo), w, open) ==> *final(memo) == *old(memo),
        p.last_closer is Some && !settles(*old(memo), w, open) ==> (*final(memo) matches Some(b) && b.key == w.key()
            && b.verdicts@ == by_opener(batch(w, p, open))),
{
    broadcast use vstd::std_specs::hash::group_hash_axioms;

    proof {
        a_closer_stands_behind_its_opener(w, p, open);
    }
    if p.last_closer.is_none() {
        return None;
    }
    let key = w.walk_key();
    if let Some(kept) = &*memo {
        if kept.key == key {
            if let Some(verdict) = kept.verdicts.get(&open) {
                return *verdict;
            }
        }
    }
    let log = gate_batch(w, p, open);
    let verdicts = tabulate(&log);
    proof {
        a_scan_settles_its_opener(w, p, open);
        lemma_by_opener(log@, open);
        assert forall|o: usize| #[trigger] verdicts@.contains_key(o) implies find(batch(w, p, o), o) == Some(
            verdicts@[o],
        ) by {
            lemma_by_opener(log@, o);
            batched_verdicts_are_the_openers_own(w, p, open, o);
        }
    }
    let verdict = match verdicts.get(&open) {
        Some(verdict) => *verdict,
        None => None,
    };
    *memo = Some(GateBatch { key, verdicts });
    verdict
}

/// The closer of an opener, from a scan of its own.
pub fn gate_verdict(w: &Walk, p: &GatePolicy, open: usize) -> (r: Option<usize>)
    requires
        p.fits(w),
        open < w.tokens@.len(),
    ensures
        r == own_closer(w, p, open),
{
    if p.last_closer.is_none() {
        return None;
    }
    let verdicts = gate_batch(w, p, open);
    match lookup(&verdicts, open) {
        Some(verdict) => verdict,
        None => None,
    }
}

/// The `\fi` of a conditional's opener.
pub fn conditional_closer(w: &Walk, p: &GatePolicy, open: usize, memo: &mut Option<GateBatch>) -> (r: Option<usize>)
    requires
        p.fits(w),
        open < w.tokens@.len(),
        coherent(*old(memo), w, p),
    ensures
        r == own_closer(w, p, open),
        coherent(*final(memo), w, p),
{
    gated_closer(w, p, open, memo)
}

/// Whether the group that a `\begin` stands in ends before the environment does. A `\begin` of
/// the documentation layer is exempt.
pub fn environment_escapes_group(
    w: &Walk,
    p: &GatePolicy,
    open: usize,
    doc_margin_exempt: bool,
    memo: &mut Option<GateBatch>,
) -> (r: bool)
    requires
        p.fits(w),
        open < w.tokens@.len(),
        coherent(*old(memo), w, p),
    ensures
        r == (w.in_group && !doc_margin_exempt && own_closer(w, p, open) is Some),
        coherent(*final(memo), w, p),
{
    if !w.in_group || doc_margin_exempt {
        return false;
    }
    gated_closer(w, p, open, memo).is_some()
}

/// The control words that stand for the ends of an environment.
pub struct Aliases {
    /// The tokens that stand for a `\begin`.
    pub openers: Vec<bool>,
    /// The environment that each token ends in place of an `\end`.
    pub closers: Vec<Option<String>>,
    /// The environment that each `\end` ends where an alias opened it.
    pub literal_closers: Vec<Option<String>>,
}

impl Aliases {
    /// The tables speak of every token.
    pub open spec fn fits(&self, w: &Walk) -> bool {
        &&& self.openers@.len() == w.tokens@.len()
        &&& self.closers@.len() == w.tokens@.len()
        &&& self.literal_closers@.len() == w.tokens@.len()
    }

    /// The closer of an alias that opens an environment, where the token is one.
    pub fn alias_closer(&self, w: &Walk, p: &GatePolicy, open: usize, memo: &mut Option<GateBatch>) -> (r: Option<usize>)
        requires
            p.fits(w),
            self.fits(w),
            open < w.tokens@.len(),
            coherent(*old(memo), w, p),
        ensures
            r == (if self.openers@[open as int] { own_closer(w, p, open) } else { None }),
            coherent(*final(memo), w, p),
    {
        if !self.openers[open] {
            return None;
        }
        gated_closer(w, p, open, memo)
    }

    /// The environment that a token ends: as an alias, or as the `\end` of an environment that an
    /// alias opened.
    pub open spec fn target(&self, w: &Walk, i: int) -> Option<Seq<char>> {
        match self.closers@[i] {
            Some(name) => Some(name@),
            None => match self.literal_closers@[i] {
                Some(name) => if w.tokens@[i].env_end {
                    Some(name@)
                } else {
                    None
                },
                None => None,
            },
        }
    }

    pub fn closer_target(&self, w: &Walk, i: usize) -> (r: Option<&str>)
        requires
            self.fits(w),
            i < w.tokens@.len(),
        ensures
            match r {
                Some(name) => self.target(w, i as int) == Some(name@),
                None => self.target(w, i as int) is None,
            },
    {
        if let Some(name) = &self.closers[i] {
            return Some(name.as_str());
        }
        if let Some(name) = &self.literal_closers[i] {
            if w.tokens[i].env_end {
                return Some(name.as_str());
            }
        }
        None
    }

    /// Whether a closer is spelled out as an `\end`.
    pub fn closer_is_literal(&self, w: &Walk, i: usize) -> (r: bool)
        requires
            self.fits(w),
            i < w.tokens@.len(),
        ensures
            r == (self.closers@[i as int] is None && self.literal_closers@[i as int] is Some),
    {
        self.closers[i].is_none() && self.literal_closers[i].is_some()
    }
}

} // verus!

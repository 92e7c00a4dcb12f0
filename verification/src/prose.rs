//! Paragraphs.
//!
//! A run of elements is put on lines anew: what touches stays together, and a gap is a place
//! where a line may end. What is known on the way is described by [`Flow`].

use vstd::prelude::*;

use crate::commands::{inline_atoms, inline_token_list_atoms, lower_statement, statement};
use crate::context::{fits, gap_at, in_tree, part, room, Boundary, LowerCtx};
use crate::docs::{
    doc_region, dtx_doc_region, dtx_env_line_lead, dtx_run_starts_margined, framed_macrocode, is_margin_framed_macrocode,
    line_lead, run_carries_doc_margin, run_has_margin, run_margined,
};
use crate::flatten::{flatten_inline_prose, flatten_statements, gap_start, prose_flat, without_statements};
use crate::gap::{blanks_end, gap_end, gap_newlines};
use crate::ir::{concat2, forces_break, space, verbatim, Ir, IrList, Layout};
use crate::lines::{ride_after_block, spaced, LineBuilder, Lines, RunRender};
use crate::lower::{loose, lower_loose_token, lower_node, lower_stream, node, streamed};
use crate::predicates::{
    block_rides_own_margins, citation_of, command_citation_placement, command_is_block, command_is_inline,
    command_is_sectioning, command_only, contains_node, enclosing_environment, env_around, has_node, has_parent,
    in_statement_body_env, in_statements, is_block, is_inline, is_label, is_label_command, is_sectioning,
    label_follows_sectioning_run, label_next, label_run, line_is_command_only, next_is_separated, next_nontrivia_is_label,
    parent_is, rides_own_margins, separated,
};
use crate::settings::WrapMode;
use crate::signatures::CitationPlacement;
use crate::syntax::{SyntaxKind, Tree};
use crate::text::contains_char;

verus! {

/// What kind of text is put on lines anew.
#[derive(Clone, Copy, Debug, PartialEq, Eq, Structural)]
pub enum ReflowKind {
    /// Running text.
    Prose,
    /// An argument of running text: its lines end where they must.
    ProseArg,
    /// Code: a line of the source stays a line.
    Statement,
    /// One statement that ends in a semicolon.
    StatementInterior,
    /// Documentation behind a margin.
    DtxProse,
}

impl ReflowKind {
    pub open spec fn is_prose(self) -> bool {
        self == ReflowKind::Prose || self == ReflowKind::ProseArg
    }
}

// ---- what is known on the way --------------------------------------------------------------

/// What is known while elements are put on lines.
pub struct Flow {
    pub b: Lines,
    /// The line of the source is commands outside running text so far.
    pub all_commands: bool,
    /// The line of the source has something on it.
    pub content: bool,
    /// The line of the source has a margin.
    pub margined: bool,
    /// A block was the last thing.
    pub after_block: bool,
    /// White space stands behind it.
    pub gap: bool,
    /// Nothing may stand behind it on its line.
    pub closed: bool,
}

/// What is known of a node that spans lines.
#[derive(Clone, Copy, Debug, PartialEq, Eq, Structural)]
pub struct BlockFacts {
    /// It is a section of the paragraph.
    pub boundary: bool,
    pub sectioning: bool,
    /// Nothing may stand behind it on its line.
    pub closes: bool,
    /// It is a label of a section, with nothing behind it.
    pub label_closes: bool,
    /// A label follows.
    pub label_follows: bool,
    /// It puts its margins back itself.
    pub owns_margin: bool,
    /// Its lines have margins of their own.
    pub own_margins: bool,
    /// It may start behind the text before it.
    pub hugs: bool,
}

impl Flow {
    pub open spec fn start(margin: bool, render: RunRender) -> Flow {
        Flow {
            b: Lines::empty(margin, render),
            all_commands: true,
            content: false,
            margined: true,
            after_block: false,
            gap: false,
            closed: false,
        }
    }

    /// A line of the source is behind.
    pub open spec fn line_behind(self, b: Lines) -> Flow {
        Flow { b, all_commands: true, content: false, after_block: false, gap: false, closed: false, ..self }
    }

    /// Something other than a command outside running text is behind.
    pub open spec fn content_behind(self, b: Lines) -> Flow {
        Flow { b, all_commands: false, content: true, after_block: false, gap: false, closed: false, ..self }
    }

    /// White space that ends no line.
    #[verifier::opaque]
    pub open spec fn with_unit_gap(self) -> Flow {
        if self.after_block {
            Flow { gap: true, ..self }
        } else {
            Flow { b: self.b.with_piece(space(), seq![' ']), after_block: false, gap: false, closed: false, ..self }
        }
    }

    /// White space within a line.
    #[verifier::opaque]
    pub open spec fn with_blank(self) -> Flow {
        let b = self.b.flushed();
        if self.after_block {
            Flow { b, gap: true, ..self }
        } else {
            Flow { b, after_block: false, gap: false, closed: false, ..self }
        }
    }

    /// A line break, at which the line ends if `ends` holds.
    #[verifier::opaque]
    pub open spec fn with_newline(self, ends: bool, pairs: Seq<Boundary>) -> Flow {
        let b = if ends {
            self.b.ended(pairs)
        } else {
            self.b.flushed().preferring_break()
        };
        Flow { margined: false, ..self.line_behind(b) }
    }

    /// An empty line.
    #[verifier::opaque]
    pub open spec fn with_empty_line(self, pairs: Seq<Boundary>) -> Flow {
        Flow { margined: false, ..self.line_behind(self.b.ended(pairs).with_pending(Layout::EmptyLine)) }
    }

    #[verifier::opaque]
    pub open spec fn with_comment(self, text: Seq<char>, pairs: Seq<Boundary>) -> Flow {
        let b = if self.after_block {
            self.b.riding(spaced(verbatim(text), self.gap))
        } else if self.content {
            self.b.with_comment(text).ended(pairs)
        } else {
            self.b.ended(pairs).with_piece(verbatim(text), text).ended(pairs)
        };
        self.line_behind(b)
    }

    /// A control symbol that holds a line feed, `before` it.
    #[verifier::opaque]
    pub open spec fn with_control_newline(self, before: Seq<char>, absorbed: bool, pairs: Seq<Boundary>) -> Flow {
        let b = if before.len() > 0 {
            self.b.with_piece(verbatim(before), before)
        } else {
            self.b
        };
        self.line_behind(
            if absorbed {
                b
            } else {
                b.ended(pairs)
            },
        )
    }

    pub open spec fn with_margin(self) -> Flow {
        Flow { margined: true, after_block: false, gap: false, closed: false, ..self }
    }

    pub open spec fn past_framing(self) -> Flow {
        Flow { after_block: false, gap: false, closed: false, ..self }
    }

    /// A line that starts with a guard.
    #[verifier::opaque]
    pub open spec fn with_guard_line(self, l: Layout, pairs: Seq<Boundary>) -> Flow {
        self.line_behind(self.b.ended(pairs).with_segment(l))
    }

    /// A guard whose line cannot be taken as a whole.
    #[verifier::opaque]
    pub open spec fn with_guard(self, l: Layout, text: Seq<char>) -> Flow {
        let b = if self.b.margin {
            self.b.with_escape()
        } else {
            self.b
        };
        self.content_behind(b.with_piece(l, text))
    }

    #[verifier::opaque]
    pub open spec fn with_token(self, l: Layout, text: Seq<char>) -> Flow {
        if self.after_block && !self.closed {
            Flow { after_block: true, ..self.content_behind(self.b.riding(spaced(l, self.gap))) }
        } else {
            self.content_behind(self.b.with_piece(l, text))
        }
    }

    #[verifier::opaque]
    pub open spec fn with_statement(self, l: Layout, pairs: Seq<Boundary>) -> Flow {
        Flow { after_block: true, closed: true, ..self.line_behind(self.b.ended(pairs).with_segment(l)) }
    }

    #[verifier::opaque]
    pub open spec fn with_row_break(self, l: Layout, text: Seq<char>, pairs: Seq<Boundary>) -> Flow {
        self.line_behind(self.b.with_piece(l, text).ended(pairs))
    }

    /// The atoms of a command before the `k`th, each but the first behind a place where the line
    /// may end.
    pub open spec fn token_pieces(b: Lines, atoms: Seq<Layout>, k: int) -> Lines
        decreases k,
    {
        if k <= 0 || k > atoms.len() {
            b
        } else {
            let before = Flow::token_pieces(b, atoms, k - 1);
            (if k > 1 {
                before.flushed()
            } else {
                before
            }).with_piece(atoms[k - 1], Seq::empty())
        }
    }

    #[verifier::opaque]
    pub open spec fn with_token_atoms(self, atoms: Seq<Layout>) -> Flow {
        self.content_behind(Flow::token_pieces(self.b, atoms, atoms.len() as int))
    }

    /// The separator behind a section or its label: a label that follows stays with it.
    pub open spec fn apart_unless(b: Lines, label_follows: bool) -> Lines {
        if label_follows {
            b.with_pending(Layout::HardLine)
        } else {
            b.section_apart()
        }
    }

    /// The label of a section.
    #[verifier::opaque]
    pub open spec fn with_section_label(
        self,
        l: Layout,
        text: Seq<char>,
        glued: bool,
        closes: bool,
        label_follows: bool,
        pairs: Seq<Boundary>,
    ) -> Flow {
        let base = if glued {
            self.b
        } else {
            self.b.ended(pairs)
        };
        let b = base.with_piece(l, text);
        if closes {
            Flow {
                after_block: true,
                closed: true,
                ..self.line_behind(Flow::apart_unless(b.ended(pairs), label_follows))
            }
        } else {
            Flow { content: true, ..self.line_behind(b) }
        }
    }

    /// A command on a line of its own.
    #[verifier::opaque]
    pub open spec fn with_block_command(
        self,
        l: Layout,
        text: Seq<char>,
        boundary: bool,
        label_follows: bool,
        pairs: Seq<Boundary>,
    ) -> Flow {
        let base = self.b.ended(pairs);
        let apart = if boundary {
            base.section_apart()
        } else {
            base
        };
        let b = apart.with_piece(l, text).ended(pairs);
        let done = if boundary && !label_follows {
            b.section_apart()
        } else {
            b
        };
        Flow { after_block: true, closed: true, ..self.line_behind(done) }
    }

    /// Where a node that spans lines is put.
    #[verifier::opaque]
    pub open spec fn placed(
        self,
        l: Layout,
        text: Seq<char>,
        lead: Option<Layout>,
        f: BlockFacts,
        pairs: Seq<Boundary>,
    ) -> Lines {
        let b = if f.boundary {
            self.b.ended(pairs).section_apart()
        } else {
            self.b
        };
        let hugs = f.hugs && !b.margin && self.content && b.render == RunRender::Fill;
        if self.after_block && !self.gap && !self.closed && !f.sectioning {
            b.riding(l)
        } else if !b.margin && (b.atom.len() > 0 || hugs) {
            if hugs {
                b.with_piece(l, text).hugged()
            } else {
                b.with_piece(l, text).ended(pairs)
            }
        } else if lead is Some {
            b.ended(pairs).with_segment(concat2(lead->0, l))
        } else if f.owns_margin {
            b.ended(pairs).with_segment(l)
        } else if b.margin && self.margined && f.own_margins {
            b.ended(pairs).with_margined_block(l)
        } else {
            b.ended(pairs).with_escape().with_segment(l)
        }
    }

    /// A node that spans lines.
    #[verifier::opaque]
    pub open spec fn with_block(
        self,
        l: Layout,
        text: Seq<char>,
        lead: Option<Layout>,
        f: BlockFacts,
        pairs: Seq<Boundary>,
    ) -> Flow {
        let b = self.placed(l, text, lead, f, pairs);
        let done = if f.boundary && !f.label_follows {
            b.section_apart()
        } else if f.label_closes {
            Flow::apart_unless(b, f.label_follows)
        } else {
            b
        };
        Flow { after_block: true, closed: f.closes, ..self.line_behind(done) }
    }

    /// A node on one line.
    #[verifier::opaque]
    pub open spec fn with_inline(
        self,
        l: Layout,
        text: Seq<char>,
        citation: Option<CitationPlacement>,
        is_command: bool,
    ) -> Flow {
        let rides = self.after_block && !self.closed;
        let b = if rides {
            self.b.riding(spaced(l, self.gap))
        } else {
            match citation {
                Some(placement) => self.b.with_citation(l, text, placement),
                None => self.b.with_piece(l, text),
            }
        };
        Flow {
            after_block: rides,
            all_commands: self.all_commands && is_command,
            ..self.content_behind(b)
        }
    }
}

// ---- guards --------------------------------------------------------------------------------

/// Whether the element spans lines.
pub open spec fn spans_lines(t: &Tree, e: int) -> bool {
    if t.tok(e) {
        t.txt(e).contains('\n')
    } else {
        t.src(e).contains('\n')
    }
}

/// Where the line that `i` is on ends, or nothing where something on it spans lines.
pub open spec fn guard_end(t: &Tree, es: Seq<usize>, i: int) -> Option<int>
    decreases es.len() - i,
{
    if i < 0 || i >= es.len() {
        Some(i)
    } else if spans_lines(t, es[i] as int) {
        if t.gap(es[i] as int) {
            Some(i)
        } else {
            None
        }
    } else {
        guard_end(t, es, i + 1)
    }
}

/// The line that starts with the guard `i`, and where it ends. Nothing where it spans lines.
pub open spec fn guard_line(cx: LowerCtx, es: Seq<usize>, i: int, fuel: nat) -> Option<(Layout, int)>
    decreases fuel, 77int, 0int,
{
    match guard_end(cx.t, es, i) {
        Some(end) => {
            let l = streamed(cx, es.subrange(i, gap_start(cx.t, es, end)), fuel);
            if forces_break(l) {
                None
            } else {
                Some((l, end))
            }
        },
        None => None,
    }
}

fn element_spans_lines(cx: LowerCtx, e: usize) -> (r: bool)
    requires
        cx.ok(),
        e < cx.t.n(),
    ensures
        r == spans_lines(cx.t, e as int),
{
    proof {
        reveal(LowerCtx::ok);
    }
    if cx.t.is_token(e) {
        contains_char(cx.t.text(e), '\n')
    } else {
        contains_char(cx.t.source_text(e).as_str(), '\n')
    }
}

proof fn lemma_gap_start_after(t: &Tree, es: Seq<usize>, i: int, hi: int)
    requires
        0 <= i < hi <= es.len(),
        !gap_at(t, es, i),
    ensures
        i < gap_start(t, es, hi) <= hi,
    decreases hi,
{
    if gap_at(t, es, hi - 1) {
        lemma_gap_start_after(t, es, i, hi - 1);
    }
}

pub fn collect_guard_line(cx: LowerCtx, es: &Vec<usize>, i: usize, Ghost(fuel): Ghost<nat>) -> (r: Option<(Ir, usize)>)
    requires
        cx.ok(),
        fits(cx.t, es@, fuel),
        i < es@.len(),
        cx.t.tok_is(es@[i as int] as int, SyntaxKind::Guard),
    ensures
        r is Some == guard_line(cx, es@, i as int, fuel) is Some,
        r matches Some(p) ==> guard_line(cx, es@, i as int, fuel) == Some((p.0@, p.1 as int)) && i < p.1 <= es@.len(),
    decreases fuel, 77int, 0int,
{
    let mut end: usize = i;
    while end < es.len() && !element_spans_lines(cx, es[end])
        invariant
            cx.ok(),
            fits(cx.t, es@, fuel),
            i <= end <= es@.len(),
            guard_end(cx.t, es@, end as int) == guard_end(cx.t, es@, i as int),
        decreases es@.len() - end,
    {
        end = end + 1;
    }
    if end < es.len() && !cx.t.is_gap(es[end]) {
        return None;
    }
    let mut last: usize = end;
    while last > 0 && cx.is_gap_at(es, last - 1)
        invariant
            in_tree(cx.t, es@),
            last <= end <= es@.len(),
            gap_start(cx.t, es@, last as int) == gap_start(cx.t, es@, end as int),
        decreases last,
    {
        last = last - 1;
    }
    proof {
        lemma_gap_start_after(cx.t, es@, i as int, end as int);
    }
    let line = part(es, i, last);
    let ir = lower_stream(cx, &line, Ghost(fuel));
    if ir.contains_forced_break() {
        return None;
    }
    Some((ir, end))
}

// ---- one step ------------------------------------------------------------------------------

/// Whether the line of the source ends at the line break that runs up to `j`.
pub open spec fn ends_line(cx: LowerCtx, es: Seq<usize>, j: int, s: Flow, kind: ReflowKind) -> bool {
    let residue = kind != ReflowKind::ProseArg && kind != ReflowKind::StatementInterior;
    kind == ReflowKind::Statement || cx.wrap == WrapMode::Semantic || (residue && s.content && s.all_commands) || (residue
        && command_only(cx, es, j, false))
}

/// What is known once the white space at `i` is behind.
#[verifier::opaque]
pub open spec fn past_gap(cx: LowerCtx, es: Seq<usize>, i: int, s: Flow, kind: ReflowKind) -> Flow {
    let j = gap_end(cx.t, es, i);
    let newlines = gap_newlines(cx.t, es, i);
    if newlines < 2 && kind == ReflowKind::StatementInterior && 0 <= j < es.len()
        && cx.t.elems@[es[j] as int].facts.unit_glued {
        s.with_unit_gap()
    } else if newlines >= 2 {
        s.with_empty_line(cx.boundaries@)
    } else if newlines == 1 {
        s.with_newline(ends_line(cx, es, j, s, kind), cx.boundaries@)
    } else {
        s.with_blank()
    }
}

/// What a text reads before its first line feed.
pub open spec fn before_feed(text: Seq<char>, i: int) -> Seq<char>
    decreases text.len() - i,
{
    if i < 0 || i >= text.len() || text[i] == '\n' {
        text.take(i)
    } else {
        before_feed(text, i + 1)
    }
}

/// What is known of the node at `i` if it spans lines.
pub open spec fn block_facts(cx: LowerCtx, es: Seq<usize>, i: int, s: Flow, kind: ReflowKind) -> BlockFacts {
    let e = es[i] as int;
    let k = cx.t.k(e);
    let sectioning = k == SyntaxKind::Command && is_sectioning(cx.sig(e));
    let label_closes = is_section_label(cx, es, i) && separated(cx.t, es, i);
    BlockFacts {
        boundary: sectioning && parent_is(cx.t, e, SyntaxKind::Paragraph),
        sectioning,
        closes: is_block_command(cx, es, i, s, kind) || label_closes || k == SyntaxKind::Environment || (k
            == SyntaxKind::DisplayMath && kind.is_prose()),
        label_closes,
        label_follows: label_next(cx, es, i + 1),
        owns_margin: s.b.margin && doc_region(cx, e),
        own_margins: rides_own_margins(cx.t, e),
        hugs: k == SyntaxKind::InlineMath && kind.is_prose(),
    }
}

/// Whether the node at `i` is the label of a section.
pub open spec fn is_section_label(cx: LowerCtx, es: Seq<usize>, i: int) -> bool {
    is_label(cx.t, es[i] as int) && label_run(cx, es, i)
}

/// Whether the node at `i` is a command on a line of its own.
pub open spec fn is_block_command(cx: LowerCtx, es: Seq<usize>, i: int, s: Flow, kind: ReflowKind) -> bool {
    let e = es[i] as int;
    kind != ReflowKind::Statement && cx.t.k(e) == SyntaxKind::Command && (is_sectioning(cx.sig(e)) || (is_block(cx, e)
        && s.b.atom.len() == 0 && separated(cx.t, es, i)))
}

/// What stands before an environment of code on its line of documentation.
pub open spec fn frame_lead(cx: LowerCtx, e: int, s: Flow) -> Option<Layout> {
    if s.b.margin && s.margined && !s.content && framed_macrocode(cx.t, e) {
        line_lead(cx.t, e)
    } else {
        None
    }
}

/// Where the citation stands that the node is, if it belongs to the sentence before it.
pub open spec fn trailing_citation(cx: LowerCtx, e: int) -> Option<CitationPlacement> {
    if cx.t.k(e) == SyntaxKind::Command {
        match citation_of(cx.sig(e)) {
            Some(placement) => if placement != CitationPlacement::Textual {
                Some(placement)
            } else {
                None
            },
            None => None,
        }
    } else {
        None
    }
}

/// What is known once the node at `i`, lowered to `l`, is behind.
#[verifier::opaque]
pub open spec fn past_node(cx: LowerCtx, es: Seq<usize>, i: int, s: Flow, kind: ReflowKind, l: Layout) -> Flow {
    let e = es[i] as int;
    let text = cx.t.src(e);
    let f = block_facts(cx, es, i, s, kind);
    if forces_break(l) {
        s.with_block(l, text, frame_lead(cx, e, s), f, cx.boundaries@)
    } else if is_section_label(cx, es, i) {
        s.with_section_label(
            l,
            text,
            i > 0 && is_label(cx.t, es[i - 1] as int),
            f.label_closes,
            f.label_follows,
            cx.boundaries@,
        )
    } else if is_block_command(cx, es, i, s, kind) {
        s.with_block_command(l, text, f.boundary, f.label_follows, cx.boundaries@)
    } else {
        s.with_inline(
            l,
            text,
            trailing_citation(cx, e),
            cx.t.k(e) == SyntaxKind::Command && !is_inline(cx.sig(e)),
        )
    }
}

/// Whether the tokens of the command may be put on lines.
pub open spec fn may_cut_tokens(cx: LowerCtx, e: int, s: Flow) -> bool {
    (cx.wrap == WrapMode::Reflow || cx.wrap == WrapMode::Stable) && !s.b.margin && !s.after_block && cx.t.k(e)
        == SyntaxKind::Command && is_inline(cx.sig(e))
}

/// What is known once the node at `i` is behind.
pub open spec fn node_step(cx: LowerCtx, es: Seq<usize>, i: int, s: Flow, kind: ReflowKind, fuel: nat) -> Flow
    decreases fuel, 76int, 0int,
{
    let e = es[i] as int;
    if cx.t.k(e) == SyntaxKind::Statement {
        s.with_statement(statement(cx, e, fuel), cx.boundaries@)
    } else if cx.t.k(e) == SyntaxKind::LineBreak {
        s.with_row_break(node(cx, e, fuel), cx.t.src(e), cx.boundaries@)
    } else {
        match inline_atoms(cx, e, fuel) {
            Some(atoms) => if may_cut_tokens(cx, e, s) {
                s.with_token_atoms(atoms)
            } else {
                past_node(cx, es, i, s, kind, node(cx, e, fuel))
            },
            None => past_node(cx, es, i, s, kind, node(cx, e, fuel)),
        }
    }
}

/// What is known once the token at `i`, which is neither white space nor a guard, is behind, and
/// where the next element is.
#[verifier::opaque]
pub open spec fn past_token(cx: LowerCtx, es: Seq<usize>, i: int, s: Flow) -> (Flow, int) {
    let e = es[i] as int;
    let k = cx.t.k(e);
    let text = cx.t.txt(e);
    if k == SyntaxKind::Comment {
        (s.with_comment(text, cx.boundaries@), i + 1)
    } else if k == SyntaxKind::ControlSymbol && text.contains('\n') {
        (s.with_control_newline(before_feed(text, 0), cx.absorbs(e), cx.boundaries@), i + 1)
    } else if k == SyntaxKind::DocMargin && s.b.margin {
        (s.with_margin(), i + 1)
    } else if k == SyntaxKind::DocMargin && cx.in_doc_region {
        (s.past_framing(), blanks_end(cx.t, es, i + 1))
    } else {
        (s.with_token(loose(cx, e), text), i + 1)
    }
}

/// What is known once the guard at `i` is behind, and where the next element is.
pub open spec fn guard_step(cx: LowerCtx, es: Seq<usize>, i: int, s: Flow, fuel: nat) -> (Flow, int)
    decreases fuel, 78int, 0int,
{
    match guard_line(cx, es, i, fuel) {
        Some((line, end)) => (s.with_guard_line(line, cx.boundaries@), end),
        None => (s.with_guard(loose(cx, es[i] as int), cx.t.txt(es[i] as int)), i + 1),
    }
}

/// What is known once the element at `i` is behind, and where the next one is.
pub open spec fn flow_step(cx: LowerCtx, es: Seq<usize>, i: int, s: Flow, kind: ReflowKind, fuel: nat) -> (Flow, int)
    decreases fuel, 79int, 0int,
{
    let e = es[i] as int;
    if cx.t.gap(e) {
        (past_gap(cx, es, i, s, kind), gap_end(cx.t, es, i))
    } else if cx.t.tok_is(e, SyntaxKind::Guard) {
        guard_step(cx, es, i, s, fuel)
    } else if cx.t.tok(e) {
        past_token(cx, es, i, s)
    } else {
        (node_step(cx, es, i, s, kind, fuel), i + 1)
    }
}

/// What is known once the elements from `i` on are behind.
pub open spec fn flow(cx: LowerCtx, es: Seq<usize>, i: int, s: Flow, kind: ReflowKind, fuel: nat) -> Flow
    decreases fuel, 80int, es.len() - i,
{
    if i < 0 || i >= es.len() {
        s
    } else {
        let (next, j) = flow_step(cx, es, i, s, kind, fuel);
        if i < j <= es.len() {
            flow(cx, es, j, next, kind, fuel)
        } else {
            next
        }
    }
}

/// How a run of that kind is put on lines.
pub open spec fn render_of(cx: LowerCtx, kind: ReflowKind) -> RunRender {
    if kind == ReflowKind::Statement {
        RunRender::Fill
    } else if cx.wrap == WrapMode::Stable {
        RunRender::Stable { target: cx.stable_target }
    } else if cx.wrap == WrapMode::Sentence || cx.wrap == WrapMode::Semantic {
        RunRender::Sentence
    } else {
        RunRender::Fill
    }
}

/// Whether white space before an argument is dropped.
pub open spec fn glues_args(cx: LowerCtx, es: Seq<usize>, kind: ReflowKind) -> bool {
    !cx.in_doc_region && !run_has_margin(cx, es) && kind.is_prose()
}

/// The elements of a run, with the wrappers that mean nothing to its lines taken off.
pub open spec fn run_elements(cx: LowerCtx, es: Seq<usize>, kind: ReflowKind, fuel: nat) -> Seq<usize> {
    let flat = if kind == ReflowKind::Statement && cx.wrap == WrapMode::Reflow {
        es
    } else {
        without_statements(cx.t, es, 0)
    };
    prose_flat(cx, flat, 0, glues_args(cx, flat, kind), Seq::empty(), fuel)
}

/// A run on lines anew, and whether something was put on a line without the margin that lines
/// of documentation have.
pub open spec fn reflowed(cx: LowerCtx, es: Seq<usize>, kind: ReflowKind, fuel: nat) -> (Layout, bool)
    decreases fuel, 81int, 0int,
{
    let s = flow(
        cx,
        run_elements(cx, es, kind, fuel),
        0,
        Flow::start(kind == ReflowKind::DtxProse, render_of(cx, kind)),
        kind,
        fuel,
    );
    (s.b.finished(cx.boundaries@), s.b.escaped)
}

// ---- the same, done ------------------------------------------------------------------------

struct Reflower<'a> {
    b: LineBuilder<'a>,
    all_commands: bool,
    content: bool,
    margined: bool,
    after_block: bool,
    gap: bool,
    closed: bool,
}

impl<'a> Reflower<'a> {
    spec fn v(&self) -> Flow {
        Flow {
            b: self.b@,
            all_commands: self.all_commands,
            content: self.content,
            margined: self.margined,
            after_block: self.after_block,
            gap: self.gap,
            closed: self.closed,
        }
    }

    spec fn ok(&self, pairs: Seq<Boundary>) -> bool {
        self.b@.ok() && self.b.pairs_of() == pairs
    }

    fn line_behind(b: LineBuilder<'a>, margined: bool) -> (r: Reflower<'a>)
        ensures
            r.b == b,
            r.v() == (Flow {
                b: b@,
                all_commands: true,
                content: false,
                margined,
                after_block: false,
                gap: false,
                closed: false,
            }),
    {
        Reflower { b, all_commands: true, content: false, margined, after_block: false, gap: false, closed: false }
    }

    fn block_behind(b: LineBuilder<'a>, margined: bool, closed: bool) -> (r: Reflower<'a>)
        ensures
            r.b == b,
            r.v() == (Flow {
                b: b@,
                all_commands: true,
                content: false,
                margined,
                after_block: true,
                gap: false,
                closed,
            }),
    {
        Reflower { b, all_commands: true, content: false, margined, after_block: true, gap: false, closed }
    }

    fn content_behind(b: LineBuilder<'a>, margined: bool, all_commands: bool, after_block: bool) -> (r: Reflower<'a>)
        ensures
            r.b == b,
            r.v() == (Flow {
                b: b@,
                all_commands,
                content: true,
                margined,
                after_block,
                gap: false,
                closed: false,
            }),
    {
        Reflower { b, all_commands, content: true, margined, after_block, gap: false, closed: false }
    }

    fn with_unit_gap(self) -> (r: Reflower<'a>)
        requires
            self.b@.ok(),
        ensures
            r.v() == self.v().with_unit_gap(),
            r.ok(self.b.pairs_of()),
    {
        proof {
            reveal(Flow::with_unit_gap);
            reveal_strlit(" ");
            assert(" "@ =~= seq![' ']);
        }
        let mut b = self.b;
        if self.after_block {
            Reflower {
                b,
                all_commands: self.all_commands,
                content: self.content,
                margined: self.margined,
                after_block: true,
                gap: true,
                closed: self.closed,
            }
        } else {
            b.push_atom_piece(Ir::space(), " ");
            Reflower {
                b,
                all_commands: self.all_commands,
                content: self.content,
                margined: self.margined,
                after_block: false,
                gap: false,
                closed: false,
            }
        }
    }

    fn with_blank(self) -> (r: Reflower<'a>)
        requires
            self.b@.ok(),
        ensures
            r.v() == self.v().with_blank(),
            r.ok(self.b.pairs_of()),
    {
        proof {
            reveal(Flow::with_blank);
        }
        let mut b = self.b;
        b.flush_atom();
        Reflower {
            b,
            all_commands: self.all_commands,
            content: self.content,
            margined: self.margined,
            after_block: self.after_block,
            gap: self.after_block,
            closed: self.after_block && self.closed,
        }
    }

    fn with_newline(self, ends: bool) -> (r: Reflower<'a>)
        requires
            self.b@.ok(),
        ensures
            r.v() == self.v().with_newline(ends, self.b.pairs_of()),
            r.ok(self.b.pairs_of()),
    {
        proof {
            reveal(Flow::with_newline);
        }
        let mut b = self.b;
        if ends {
            b.end_line();
        } else {
            b.flush_atom();
            b.prefer_next_break();
        }
        Reflower::line_behind(b, false)
    }

    fn with_empty_line(self) -> (r: Reflower<'a>)
        requires
            self.b@.ok(),
        ensures
            r.v() == self.v().with_empty_line(self.b.pairs_of()),
            r.ok(self.b.pairs_of()),
    {
        proof {
            reveal(Flow::with_empty_line);
        }
        let mut b = self.b;
        b.end_line();
        b.set_pending(Ir::EmptyLine);
        Reflower::line_behind(b, false)
    }

    fn with_comment(self, text: &str) -> (r: Reflower<'a>)
        requires
            self.b@.ok(),
        ensures
            r.v() == self.v().with_comment(text@, self.b.pairs_of()),
            r.ok(self.b.pairs_of()),
    {
        proof {
            reveal(Flow::with_comment);
        }
        let mut b = self.b;
        if self.after_block {
            b.append_to_last_line(ride_after_block(Ir::verbatim(text), self.gap));
        } else if self.content {
            b.append_trailing_comment(text);
            b.end_line();
        } else {
            b.end_line();
            b.push_atom_piece(Ir::verbatim(text), text);
            b.end_line();
        }
        Reflower::line_behind(b, self.margined)
    }

    fn with_control_newline(self, before: &str, absorbed: bool) -> (r: Reflower<'a>)
        requires
            self.b@.ok(),
        ensures
            r.v() == self.v().with_control_newline(before@, absorbed, self.b.pairs_of()),
            r.ok(self.b.pairs_of()),
    {
        proof {
            reveal(Flow::with_control_newline);
        }
        let mut b = self.b;
        if !before.is_empty() {
            b.push_atom_piece(Ir::verbatim(before), before);
        }
        if !absorbed {
            b.end_line();
        }
        Reflower::line_behind(b, self.margined)
    }

    fn past_framing(self, margined: bool) -> (r: Reflower<'a>)
        requires
            self.b@.ok(),
        ensures
            r.v() == (Flow { margined, ..self.v().past_framing() }),
            r.ok(self.b.pairs_of()),
    {
        Reflower {
            b: self.b,
            all_commands: self.all_commands,
            content: self.content,
            margined,
            after_block: false,
            gap: false,
            closed: false,
        }
    }

    fn with_guard_line(self, ir: Ir) -> (r: Reflower<'a>)
        requires
            self.b@.ok(),
        ensures
            r.v() == self.v().with_guard_line(ir@, self.b.pairs_of()),
            r.ok(self.b.pairs_of()),
    {
        proof {
            reveal(Flow::with_guard_line);
        }
        let mut b = self.b;
        b.end_line();
        b.push_segment(ir);
        Reflower::line_behind(b, self.margined)
    }

    fn with_guard(self, ir: Ir, text: &str) -> (r: Reflower<'a>)
        requires
            self.b@.ok(),
        ensures
            r.v() == self.v().with_guard(ir@, text@),
            r.ok(self.b.pairs_of()),
    {
        proof {
            reveal(Flow::with_guard);
        }
        let mut b = self.b;
        b.note_margin_escape();
        b.push_atom_piece(ir, text);
        Reflower::content_behind(b, self.margined, false, false)
    }

    fn with_token(self, ir: Ir, text: &str) -> (r: Reflower<'a>)
        requires
            self.b@.ok(),
        ensures
            r.v() == self.v().with_token(ir@, text@),
            r.ok(self.b.pairs_of()),
    {
        proof {
            reveal(Flow::with_token);
        }
        let rides = self.after_block && !self.closed;
        let mut b = self.b;
        if rides {
            b.append_to_last_line(ride_after_block(ir, self.gap));
        } else {
            b.push_atom_piece(ir, text);
        }
        Reflower::content_behind(b, self.margined, false, rides)
    }

    fn with_statement(self, ir: Ir) -> (r: Reflower<'a>)
        requires
            self.b@.ok(),
        ensures
            r.v() == self.v().with_statement(ir@, self.b.pairs_of()),
            r.ok(self.b.pairs_of()),
    {
        proof {
            reveal(Flow::with_statement);
        }
        let mut b = self.b;
        b.end_line();
        b.push_segment(ir);
        Reflower::block_behind(b, self.margined, true)
    }

    fn with_row_break(self, ir: Ir, text: &str) -> (r: Reflower<'a>)
        requires
            self.b@.ok(),
        ensures
            r.v() == self.v().with_row_break(ir@, text@, self.b.pairs_of()),
            r.ok(self.b.pairs_of()),
    {
        proof {
            reveal(Flow::with_row_break);
        }
        let mut b = self.b;
        b.push_atom_piece(ir, text);
        b.end_line();
        Reflower::line_behind(b, self.margined)
    }

    fn with_token_atoms(self, list: IrList) -> (r: Reflower<'a>)
        requires
            self.b@.ok(),
        ensures
            r.v() == self.v().with_token_atoms(list@),
            r.ok(self.b.pairs_of()),
    {
        proof {
            reveal(Flow::with_token_atoms);
            reveal_strlit("");
            assert(""@ =~= Seq::<char>::empty());
        }
        let ghost start = self.b@;
        let ghost pairs = self.b.pairs_of();
        let mut b = self.b;
        let mut k: usize = 0;
        while k < list.len()
            invariant
                ""@ == Seq::<char>::empty(),
                k <= list@.len(),
                b@.ok(),
                b.pairs_of() == pairs,
                b@ == Flow::token_pieces(start, list@, k as int),
            decreases list@.len() - k,
        {
            if k > 0 {
                b.flush_atom();
            }
            b.push_atom_piece(list.at(k), "");
            k = k + 1;
        }
        Reflower::content_behind(b, self.margined, false, false)
    }

    fn with_section_label(self, ir: Ir, text: &str, glued: bool, closes: bool, label_follows: bool) -> (r: Reflower<'a>)
        requires
            self.b@.ok(),
        ensures
            r.v() == self.v().with_section_label(
                ir@,
                text@,
                glued,
                closes,
                label_follows,
                self.b.pairs_of(),
            ),
            r.ok(self.b.pairs_of()),
    {
        proof {
            reveal(Flow::with_section_label);
        }
        let mut b = self.b;
        if !glued {
            b.end_line();
        }
        b.push_atom_piece(ir, text);
        if closes {
            b.end_line();
            if label_follows {
                b.set_pending(Ir::HardLine);
            } else {
                b.separate_section();
            }
            Reflower::block_behind(b, self.margined, true)
        } else {
            Reflower::content_behind(b, self.margined, true, false)
        }
    }

    fn with_block_command(self, ir: Ir, text: &str, boundary: bool, label_follows: bool) -> (r: Reflower<'a>)
        requires
            self.b@.ok(),
        ensures
            r.v() == self.v().with_block_command(ir@, text@, boundary, label_follows, self.b.pairs_of()),
            r.ok(self.b.pairs_of()),
    {
        proof {
            reveal(Flow::with_block_command);
        }
        let mut b = self.b;
        b.end_line();
        if boundary {
            b.separate_section();
        }
        b.push_atom_piece(ir, text);
        b.end_line();
        if boundary && !label_follows {
            b.separate_section();
        }
        Reflower::block_behind(b, self.margined, true)
    }

    fn place(self, ir: Ir, text: &str, lead: Option<Ir>, f: BlockFacts) -> (r: LineBuilder<'a>)
        requires
            self.b@.ok(),
        ensures
            r@ == self.v().placed(
                ir@,
                text@,
                match lead {
                    Some(lead) => Some(lead@),
                    None => None,
                },
                f,
                self.b.pairs_of(),
            ),
            r@.ok(),
            r.pairs_of() == self.b.pairs_of(),
    {
        proof {
            reveal(Flow::placed);
        }
        let rides = self.after_block && !self.gap && !self.closed && !f.sectioning;
        let mut b = self.b;
        if f.boundary {
            b.end_line();
            b.separate_section();
        }
        let hugs = f.hugs && !b.has_margin() && self.content && b.fills();
        if rides {
            b.append_to_last_line(ir);
        } else if !b.has_margin() && (!b.atom_is_empty() || hugs) {
            b.push_atom_piece(ir, text);
            if hugs {
                b.end_hug_line();
            } else {
                b.end_line();
            }
        } else {
            match lead {
                Some(lead) => {
                    b.end_line();
                    b.push_segment(Ir::concat2(lead, ir));
                },
                None => {
                    if f.owns_margin {
                        b.end_line();
                        b.push_segment(ir);
                    } else if b.has_margin() && self.margined && f.own_margins {
                        b.end_line();
                        b.push_margined_block(ir);
                    } else {
                        b.end_line();
                        b.note_margin_escape();
                        b.push_segment(ir);
                    }
                },
            }
        }
        b
    }

    fn with_block(self, ir: Ir, text: &str, lead: Option<Ir>, f: BlockFacts) -> (r: Reflower<'a>)
        requires
            self.b@.ok(),
        ensures
            r.v() == self.v().with_block(
                ir@,
                text@,
                match lead {
                    Some(lead) => Some(lead@),
                    None => None,
                },
                f,
                self.b.pairs_of(),
            ),
            r.ok(self.b.pairs_of()),
    {
        proof {
            reveal(Flow::with_block);
        }
        let margined = self.margined;
        let mut b = self.place(ir, text, lead, f);
        if f.boundary && !f.label_follows {
            b.separate_section();
        } else if f.label_closes {
            if f.label_follows {
                b.set_pending(Ir::HardLine);
            } else {
                b.separate_section();
            }
        }
        Reflower::block_behind(b, margined, f.closes)
    }

    fn with_inline(self, ir: Ir, text: &str, citation: Option<CitationPlacement>, is_command: bool) -> (r: Reflower<'a>)
        requires
            self.b@.ok(),
        ensures
            r.v() == self.v().with_inline(ir@, text@, citation, is_command),
            r.ok(self.b.pairs_of()),
    {
        proof {
            reveal(Flow::with_inline);
        }
        let rides = self.after_block && !self.closed;
        let mut b = self.b;
        if rides {
            b.append_to_last_line(ride_after_block(ir, self.gap));
        } else {
            match citation {
                Some(placement) => {
                    b.push_trailing_citation(ir, text, placement);
                },
                None => {
                    b.push_atom_piece(ir, text);
                },
            }
        }
        Reflower::content_behind(b, self.margined, self.all_commands && is_command, rides)
    }
}

fn take_gap<'a>(cx: LowerCtx<'a>, es: &Vec<usize>, i: usize, s: Reflower<'a>, kind: ReflowKind) -> (r: (Reflower<'a>, usize))
    requires
        cx.ok(),
        in_tree(cx.t, es@),
        i < es@.len(),
        gap_at(cx.t, es@, i as int),
        s.ok(cx.boundaries@),
    ensures
        r.0.ok(cx.boundaries@),
        r.0.v() == past_gap(cx, es@, i as int, s.v(), kind),
        r.1 == gap_end(cx.t, es@, i as int),
        i < r.1 <= es@.len(),
{
    proof {
        reveal(past_gap);
    }
    let (newlines, j) = cx.consume_widened_gap_slice(es, i);
    let glued = newlines < 2 && kind == ReflowKind::StatementInterior && j < es.len()
        && cx.t.elems[es[j]].facts.unit_glued;
    if glued {
        (s.with_unit_gap(), j)
    } else if newlines >= 2 {
        (s.with_empty_line(), j)
    } else if newlines == 1 {
        let residue = kind != ReflowKind::ProseArg && kind != ReflowKind::StatementInterior;
        let ends = kind == ReflowKind::Statement || cx.wrap == WrapMode::Semantic || (residue && s.content
            && s.all_commands) || (residue && line_is_command_only(cx, es, j));
        (s.with_newline(ends), j)
    } else {
        (s.with_blank(), j)
    }
}

fn take_token<'a>(cx: LowerCtx<'a>, es: &Vec<usize>, i: usize, s: Reflower<'a>) -> (r: (Reflower<'a>, usize))
    requires
        cx.ok(),
        in_tree(cx.t, es@),
        i < es@.len(),
        s.ok(cx.boundaries@),
    ensures
        r.0.ok(cx.boundaries@),
        (r.0.v(), r.1 as int) == past_token(cx, es@, i as int, s.v()),
        i < r.1 <= es@.len(),
{
    proof {
        reveal(past_token);
    }
    assert(i < es.len());
    let e: usize = es[i];
    let k = cx.t.kind(e);
    let text = cx.t.text(e);
    if k == SyntaxKind::Comment {
        (s.with_comment(text), i + 1)
    } else if k == SyntaxKind::ControlSymbol && contains_char(text, '\n') {
        let n: usize = text.unicode_len();
        let mut j: usize = 0;
        while j < n && text.get_char(j) != '\n'
            invariant
                n == text@.len(),
                j <= n,
                before_feed(text@, j as int) == before_feed(text@, 0),
            decreases n - j,
        {
            j = j + 1;
        }
        let before = text.substring_char(0, j);
        assert(text@.subrange(0, j as int) =~= text@.take(j as int));
        (s.with_control_newline(before, cx.absorbs_control_newline(e)), i + 1)
    } else if k == SyntaxKind::DocMargin && s.b.has_margin() {
        (s.past_framing(true), i + 1)
    } else if k == SyntaxKind::DocMargin && cx.in_doc_region {
        let margined = s.margined;
        (s.past_framing(margined), cx.skip_blanks(es, i + 1))
    } else {
        (s.with_token(lower_loose_token(cx, e), text), i + 1)
    }
}

fn gather_block_facts<'a>(cx: LowerCtx<'a>, es: &Vec<usize>, i: usize, s: &Reflower<'a>, kind: ReflowKind) -> (r: (
    BlockFacts,
    bool,
    bool,
))
    requires
        cx.ok(),
        in_tree(cx.t, es@),
        i < es@.len(),
        !cx.t.tok(es@[i as int] as int),
    ensures
        r.0 == block_facts(cx, es@, i as int, s.v(), kind),
        r.1 == is_section_label(cx, es@, i as int),
        r.2 == is_block_command(cx, es@, i as int, s.v(), kind),
{
    let e: usize = es[i];
    let k = cx.t.kind(e);
    let prose = kind == ReflowKind::Prose || kind == ReflowKind::ProseArg;
    let sectioning = k == SyntaxKind::Command && command_is_sectioning(cx, e);
    let apart = next_is_separated(cx, es, i);
    let label = is_label_command(cx, e) && label_follows_sectioning_run(cx, es, i);
    let block = kind != ReflowKind::Statement && k == SyntaxKind::Command && (sectioning || (command_is_block(cx, e)
        && s.b.atom_is_empty() && apart));
    let label_closes = label && apart;
    (
        BlockFacts {
            boundary: sectioning && has_parent(cx, e, SyntaxKind::Paragraph),
            sectioning,
            closes: block || label_closes || k == SyntaxKind::Environment || (k == SyntaxKind::DisplayMath && prose),
            label_closes,
            label_follows: next_nontrivia_is_label(cx, es, i),
            owns_margin: s.b.has_margin() && dtx_doc_region(cx, e),
            own_margins: block_rides_own_margins(cx, e),
            hugs: k == SyntaxKind::InlineMath && prose,
        },
        label,
        block,
    )
}

fn take_lowered<'a>(cx: LowerCtx<'a>, es: &Vec<usize>, i: usize, s: Reflower<'a>, kind: ReflowKind, ir: Ir) -> (r: Reflower<
    'a,
>)
    requires
        cx.ok(),
        in_tree(cx.t, es@),
        i < es@.len(),
        !cx.t.tok(es@[i as int] as int),
        s.ok(cx.boundaries@),
    ensures
        r.ok(cx.boundaries@),
        r.v() == past_node(cx, es@, i as int, s.v(), kind, ir@),
{
    proof {
        reveal(past_node);
    }
    let e: usize = es[i];
    let source = source_of(cx, e);
    let text = source.as_str();
    let (f, label, block) = gather_block_facts(cx, es, i, &s, kind);
    if ir.contains_forced_break() {
        let lead = if s.b.has_margin() && s.margined && !s.content && is_margin_framed_macrocode(cx, e) {
            dtx_env_line_lead(cx, e)
        } else {
            None
        };
        s.with_block(ir, text, lead, f)
    } else if label {
        let glued = i > 0 && is_label_command(cx, es[i - 1]);
        s.with_section_label(ir, text, glued, f.label_closes, f.label_follows)
    } else if block {
        s.with_block_command(ir, text, f.boundary, f.label_follows)
    } else {
        let is_command = cx.t.kind(e) == SyntaxKind::Command;
        let citation = if is_command {
            match command_citation_placement(cx, e) {
                Some(placement) => if placement != CitationPlacement::Textual {
                    Some(placement)
                } else {
                    None
                },
                None => None,
            }
        } else {
            None
        };
        s.with_inline(ir, text, citation, is_command && !command_is_inline(cx, e))
    }
}

pub fn source_of(cx: LowerCtx, e: usize) -> (r: String)
    requires
        cx.ok(),
        e < cx.t.n(),
    ensures
        r@ == cx.t.src(e as int),
{
    proof {
        reveal(LowerCtx::ok);
    }
    cx.t.source_text(e)
}

fn take_node<'a>(
    cx: LowerCtx<'a>,
    es: &Vec<usize>,
    i: usize,
    s: Reflower<'a>,
    kind: ReflowKind,
    Ghost(fuel): Ghost<nat>,
) -> (r: Reflower<'a>)
    requires
        cx.ok(),
        fits(cx.t, es@, fuel),
        i < es@.len(),
        !cx.t.tok(es@[i as int] as int),
        s.ok(cx.boundaries@),
    ensures
        r.ok(cx.boundaries@),
        r.v() == node_step(cx, es@, i as int, s.v(), kind, fuel),
    decreases fuel, 76int, 0int,
{
    let e: usize = es[i];
    assert(room(cx.t, es@[i as int] as int, fuel));
    let k = cx.t.kind(e);
    if k == SyntaxKind::Statement {
        let ir = lower_statement(cx, e, Ghost(fuel));
        return s.with_statement(ir);
    }
    if k == SyntaxKind::LineBreak {
        let ir = lower_node(cx, e, Ghost(fuel));
        let source = source_of(cx, e);
        return s.with_row_break(ir, source.as_str());
    }
    if (cx.wrap == WrapMode::Reflow || cx.wrap == WrapMode::Stable) && !s.b.has_margin() && !s.after_block && k
        == SyntaxKind::Command && command_is_inline(cx, e) {
        match inline_token_list_atoms(cx, e, Ghost(fuel)) {
            Some(list) => {
                return s.with_token_atoms(list);
            },
            None => {},
        }
    }
    let ir = lower_node(cx, e, Ghost(fuel));
    take_lowered(cx, es, i, s, kind, ir)
}

fn take_guard<'a>(cx: LowerCtx<'a>, es: &Vec<usize>, i: usize, s: Reflower<'a>, Ghost(fuel): Ghost<nat>) -> (r: (
    Reflower<'a>,
    usize,
))
    requires
        cx.ok(),
        fits(cx.t, es@, fuel),
        i < es@.len(),
        cx.t.tok_is(es@[i as int] as int, SyntaxKind::Guard),
        s.ok(cx.boundaries@),
    ensures
        r.0.ok(cx.boundaries@),
        (r.0.v(), r.1 as int) == guard_step(cx, es@, i as int, s.v(), fuel),
        i < r.1 <= es@.len(),
    decreases fuel, 78int, 0int,
{
    assert(i < es.len());
    match collect_guard_line(cx, es, i, Ghost(fuel)) {
        Some((line, end)) => (s.with_guard_line(line), end),
        None => (s.with_guard(lower_loose_token(cx, es[i]), cx.t.text(es[i])), i + 1),
    }
}

fn take_element<'a>(
    cx: LowerCtx<'a>,
    es: &Vec<usize>,
    i: usize,
    s: Reflower<'a>,
    kind: ReflowKind,
    Ghost(fuel): Ghost<nat>,
) -> (r: (Reflower<'a>, usize))
    requires
        cx.ok(),
        fits(cx.t, es@, fuel),
        i < es@.len(),
        s.ok(cx.boundaries@),
    ensures
        r.0.ok(cx.boundaries@),
        (r.0.v(), r.1 as int) == flow_step(cx, es@, i as int, s.v(), kind, fuel),
        i < r.1 <= es@.len(),
    decreases fuel, 79int, 0int,
{
    assert(i < es.len());
    let e: usize = es[i];
    if cx.t.is_gap(e) {
        take_gap(cx, es, i, s, kind)
    } else if cx.t.token_is(e, SyntaxKind::Guard) {
        take_guard(cx, es, i, s, Ghost(fuel))
    } else if cx.t.is_token(e) {
        take_token(cx, es, i, s)
    } else {
        (take_node(cx, es, i, s, kind, Ghost(fuel)), i + 1)
    }
}

fn elements_of_run(cx: LowerCtx, es: &Vec<usize>, kind: ReflowKind, Ghost(fuel): Ghost<nat>) -> (r: Vec<usize>)
    requires
        cx.ok(),
        fits(cx.t, es@, fuel),
    ensures
        r@ == run_elements(cx, es@, kind, fuel),
        fits(cx.t, r@, fuel),
{
    let prose = kind == ReflowKind::Prose || kind == ReflowKind::ProseArg;
    let flat = if kind == ReflowKind::Statement && cx.wrap == WrapMode::Reflow {
        let copy = part(es, 0, es.len());
        assert(copy@ =~= es@);
        copy
    } else {
        flatten_statements(cx, es, Ghost(fuel))
    };
    let glue = !cx.in_doc_region && !run_carries_doc_margin(cx, &flat) && prose;
    flatten_inline_prose(cx, &flat, glue, Ghost(fuel))
}

pub fn reflow_elements_checked(cx: LowerCtx, elements: &Vec<usize>, kind: ReflowKind, Ghost(fuel): Ghost<nat>) -> (r: (
    Ir,
    bool,
))
    requires
        cx.ok(),
        fits(cx.t, elements@, fuel),
    ensures
        (r.0@, r.1) == reflowed(cx, elements@, kind, fuel),
    decreases fuel, 81int, 0int,
{
    let es = elements_of_run(cx, elements, kind, Ghost(fuel));
    let render = if kind == ReflowKind::Statement {
        RunRender::Fill
    } else if cx.wrap == WrapMode::Stable {
        RunRender::Stable { target: cx.stable_target }
    } else if cx.wrap == WrapMode::Sentence || cx.wrap == WrapMode::Semantic {
        RunRender::Sentence
    } else {
        RunRender::Fill
    };
    let b = LineBuilder::new(kind == ReflowKind::DtxProse, render, cx.boundaries);
    let mut s = Reflower {
        b,
        all_commands: true,
        content: false,
        margined: true,
        after_block: false,
        gap: false,
        closed: false,
    };
    let ghost start = Flow::start(kind == ReflowKind::DtxProse, render);
    let mut i: usize = 0;
    while i < es.len()
        invariant
            cx.ok(),
            fits(cx.t, es@, fuel),
            i <= es@.len(),
            s.ok(cx.boundaries@),
            flow(cx, es@, i as int, s.v(), kind, fuel) == flow(cx, es@, 0, start, kind, fuel),
        decreases es@.len() - i,
    {
        let (next, j) = take_element(cx, &es, i, s, kind, Ghost(fuel));
        s = next;
        i = j;
    }
    let escaped = s.b.margin_escaped();
    (s.b.finish(), escaped)
}

// ---- runs and paragraphs -------------------------------------------------------------------

/// A run on lines anew.
pub fn reflow_elements(cx: LowerCtx, es: &Vec<usize>, kind: ReflowKind, Ghost(fuel): Ghost<nat>) -> (r: Ir)
    requires
        cx.ok(),
        fits(cx.t, es@, fuel),
    ensures
        r@ == reflowed(cx, es@, kind, fuel).0,
    decreases fuel, 82int, 0int,
{
    reflow_elements_checked(cx, es, kind, Ghost(fuel)).0
}

/// What kind of text a paragraph is.
pub open spec fn paragraph_kind(cx: LowerCtx, n: int) -> ReflowKind {
    if in_statements(cx, n) {
        ReflowKind::Statement
    } else {
        ReflowKind::Prose
    }
}

pub fn paragraph_reflow_kind(cx: LowerCtx, n: usize) -> (r: ReflowKind)
    requires
        cx.ok(),
        n < cx.t.n(),
    ensures
        r == paragraph_kind(cx, n as int),
{
    if in_statement_body_env(cx, n) {
        ReflowKind::Statement
    } else {
        ReflowKind::Prose
    }
}

/// A paragraph on lines anew.
pub open spec fn paragraph_reflow(cx: LowerCtx, n: int, fuel: nat) -> Layout
    decreases fuel, 40int, 0int,
{
    if fuel == 0 {
        Layout::Nil
    } else {
        reflowed(cx, cx.t.kids(n), paragraph_kind(cx, n), (fuel - 1) as nat).0
    }
}

pub fn lower_paragraph_reflow(cx: LowerCtx, n: usize, Ghost(fuel): Ghost<nat>) -> (r: Ir)
    requires
        cx.ok(),
        room(cx.t, n as int, fuel),
    ensures
        r@ == paragraph_reflow(cx, n as int, fuel),
    decreases fuel, 40int, 0int,
{
    let es = cx.children(n);
    reflow_elements(cx, &es, paragraph_reflow_kind(cx, n), Ghost((fuel - 1) as nat))
}

/// Whether the element is or holds an environment other than framed code.
pub open spec fn holds_environment(t: &Tree, e: int) -> bool {
    !t.tok(e) && !framed_macrocode(t, e) && has_node(t, e, SyntaxKind::Environment)
}

/// Whether environments stand in or around the run.
pub open spec fn run_structured(t: &Tree, es: Seq<usize>) -> bool {
    (exists|i: int| 0 <= i < es.len() && holds_environment(t, #[trigger] es[i] as int)) || (es.len() > 0 && env_around(
        t,
        es[0] as int,
    ) is Some)
}

/// Whether a run of documentation can be laid out anew with every line of it behind the margin.
pub open spec fn run_reflows_safely(cx: LowerCtx, es: Seq<usize>, fuel: nat) -> bool
    decreases fuel, 82int, 0int,
{
    run_margined(cx.t, es, 0) && !run_structured(cx.t, es) && !reflowed(
        LowerCtx { margin_probe: true, ..cx },
        es,
        ReflowKind::DtxProse,
        fuel,
    ).1
}

fn run_is_structured(cx: LowerCtx, es: &Vec<usize>) -> (r: bool)
    requires
        cx.ok(),
        in_tree(cx.t, es@),
    ensures
        r == run_structured(cx.t, es@),
{
    let mut i: usize = 0;
    while i < es.len()
        invariant
            cx.ok(),
            in_tree(cx.t, es@),
            i <= es@.len(),
            forall|j: int| 0 <= j < i ==> !holds_environment(cx.t, #[trigger] es@[j] as int),
        decreases es@.len() - i,
    {
        let e: usize = es[i];
        if !cx.t.is_token(e) && !is_margin_framed_macrocode(cx, e) && contains_node(cx, e, SyntaxKind::Environment) {
            assert(holds_environment(cx.t, es@[i as int] as int));
            return true;
        }
        i = i + 1;
    }
    es.len() > 0 && enclosing_environment(cx, es[0]).is_some()
}

pub fn dtx_run_reflows_safely(cx: LowerCtx, es: &Vec<usize>, Ghost(fuel): Ghost<nat>) -> (r: bool)
    requires
        cx.ok(),
        fits(cx.t, es@, fuel),
    ensures
        r == run_reflows_safely(cx, es@, fuel),
    decreases fuel, 82int, 0int,
{
    if !dtx_run_starts_margined(cx, es) || run_is_structured(cx, es) {
        return false;
    }
    let probe = LowerCtx { margin_probe: true, ..cx };
    proof {
        reveal(LowerCtx::ok);
    }
    !reflow_elements_checked(probe, es, ReflowKind::DtxProse, Ghost(fuel)).1
}

} // verus!

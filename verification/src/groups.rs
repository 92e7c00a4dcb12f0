//! Groups in braces and brackets.

use vstd::prelude::*;

use crate::context::{fits, gap_at, in_tree, node_at, room, tok_at, LowerCtx};
use crate::docs::{doc_paragraph, is_dtx_doc_paragraph};
use crate::flatten::{
    alignment_cell_elements, cell_elements, closer, framing_stripped, inner, opener, split_delimited,
    strip_virtual_dtx_framing,
};
use crate::gap::{
    blanks_end, gap_end, gap_newlines, gap_of, lemma_blanks_end, lemma_gap_end, peel_back,
    peel_front, trim_leading_break, trim_trailing_break,
};
use crate::ir::{concat, concat2, concat3, concat4, forces_break, group, if_break, indent, space, verbatim, Ir, IrList, Layout};
use crate::lower::{loose, lower_loose_token, lower_node, lower_stream, node, streamed};
use crate::predicates::{has_parent, parent_is};
use crate::prose::{reflow_elements_checked, reflowed, ReflowKind};
use crate::settings::WrapMode;
use crate::syntax::{SyntaxKind, Tree};
use crate::text::{contains_char, str_eq};

verus! {

// ---- a body on lines of its own ------------------------------------------------------------

/// A token as it stands, or nothing.
pub open spec fn token_layout(t: &Tree, e: Option<usize>) -> Layout {
    match e {
        Some(e) => verbatim(t.txt(e as int)),
        None => Layout::Nil,
    }
}

pub fn lower_delimiter(cx: LowerCtx, e: Option<usize>) -> (r: Ir)
    requires
        e matches Some(e) ==> e < cx.t.n(),
    ensures
        r@ == token_layout(cx.t, e),
{
    match e {
        Some(e) => Ir::verbatim(cx.t.text(e)),
        None => Ir::Nil,
    }
}

/// How many line breaks the white space at the end of the first `hi` elements has.
pub open spec fn newlines_before(t: &Tree, es: Seq<usize>, hi: int) -> int
    decreases hi,
{
    if gap_at(t, es, hi - 1) {
        newlines_before(t, es, hi - 1) + if tok_at(t, es, hi - 1, SyntaxKind::Newline) {
            1int
        } else {
            0
        }
    } else {
        0
    }
}

fn count_newlines_before(cx: LowerCtx, es: &Vec<usize>) -> (r: usize)
    requires
        in_tree(cx.t, es@),
    ensures
        r == newlines_before(cx.t, es@, es@.len() as int),
{
    let mut hi: usize = es.len();
    let mut count: usize = 0;
    while hi > 0 && cx.is_gap_at(es, hi - 1)
        invariant
            in_tree(cx.t, es@),
            hi <= es@.len(),
            count <= es@.len() - hi,
            es@.len() == es.len(),
            count + newlines_before(cx.t, es@, hi as int) == newlines_before(cx.t, es@, es@.len() as int),
        decreases hi,
    {
        if cx.t.token_is(es[hi - 1], SyntaxKind::Newline) {
            count = count + 1;
        }
        hi = hi - 1;
    }
    count
}

/// The body of a group that is put on lines of its own.
pub open spec fn block_body(cx: LowerCtx, body: Seq<usize>, open: SyntaxKind, fuel: nat) -> Layout
    decreases fuel, 90int, 0int,
{
    let l = if (cx.wrap == WrapMode::Reflow || cx.wrap == WrapMode::Stable) && open == SyntaxKind::LBrace {
        reflowed(cx, body, ReflowKind::Statement, fuel).0
    } else {
        streamed(cx, body, fuel)
    };
    peel_back(peel_front(l).1).1
}

/// Which break stands at an edge of such a body.
pub open spec fn edge_break(blank: bool, glued: bool) -> Layout {
    if blank {
        Layout::EmptyLine
    } else if glued {
        Layout::Nil
    } else {
        Layout::HardLine
    }
}

/// A group with its body on lines of its own. A comment behind the opening delimiter stays
/// there. Where the content touches a delimiter it goes on touching it, unless the group holds
/// keys and values.
pub open spec fn bracketed(cx: LowerCtx, n: int, open: SyntaxKind, close: SyntaxKind, keyval: bool, fuel: nat) -> Layout
    decreases fuel, 12int, 0int,
{
    let t = cx.t;
    let es = framing_stripped(cx, t.kids(n));
    let all = inner(t, es, open, close, es.len() as int);
    let open_layout = token_layout(t, opener(t, es, open, 0));
    let close_layout = token_layout(t, closer(t, es, open, close, es.len() as int));
    let edges = open == SyntaxKind::LBracket;
    let lead_blank = edges && gap_newlines(t, all, 0) >= 2;
    let trail_blank = edges && newlines_before(t, all, all.len() as int) >= 2;
    let commented = tok_at(t, all, 0, SyntaxKind::Comment);
    let opened = if commented {
        concat2(open_layout, verbatim(t.txt(all[0] as int)))
    } else {
        open_layout
    };
    let rest = if commented {
        all.subrange(1, all.len() as int)
    } else {
        all
    };
    let open_glued = !keyval && !gap_at(t, rest, 0);
    let close_glued = !keyval && rest.len() > 0 && !gap_at(t, rest, rest.len() - 1);
    let body = if fuel == 0 {
        Layout::Nil
    } else {
        block_body(cx, rest, open, (fuel - 1) as nat)
    };
    if body is Nil {
        if lead_blank || trail_blank {
            concat3(opened, Layout::EmptyLine, close_layout)
        } else if commented {
            concat3(opened, Layout::HardLine, close_layout)
        } else {
            concat2(opened, close_layout)
        }
    } else {
        concat4(
            opened,
            indent(concat2(edge_break(lead_blank, open_glued), body)),
            edge_break(trail_blank, close_glued),
            close_layout,
        )
    }
}

fn lower_block_body(cx: LowerCtx, body: &Vec<usize>, open: SyntaxKind, Ghost(fuel): Ghost<nat>) -> (r: Ir)
    requires
        cx.ok(),
        fits(cx.t, body@, fuel),
    ensures
        r@ == block_body(cx, body@, open, fuel),
    decreases fuel, 90int, 0int,
{
    let ir = if (cx.wrap == WrapMode::Reflow || cx.wrap == WrapMode::Stable) && open == SyntaxKind::LBrace {
        reflow_elements_checked(cx, body, ReflowKind::Statement, Ghost(fuel)).0
    } else {
        lower_stream(cx, body, Ghost(fuel))
    };
    trim_trailing_break(&trim_leading_break(&ir))
}

fn lower_edge_break(blank: bool, glued: bool) -> (r: Ir)
    ensures
        r@ == edge_break(blank, glued),
{
    if blank {
        Ir::EmptyLine
    } else if glued {
        Ir::Nil
    } else {
        Ir::HardLine
    }
}

pub fn lower_bracketed(
    cx: LowerCtx,
    n: usize,
    open: SyntaxKind,
    close: SyntaxKind,
    keyval: bool,
    Ghost(fuel): Ghost<nat>,
) -> (r: Ir)
    requires
        cx.ok(),
        room(cx.t, n as int, fuel),
    ensures
        r@ == bracketed(cx, n as int, open, close, keyval, fuel),
    decreases fuel, 12int, 0int,
{
    let ghost less = (fuel - 1) as nat;
    let es = strip_virtual_dtx_framing(cx, cx.children(n), Ghost(less));
    let parts = split_delimited(cx, &es, open, close, Ghost(less));
    let all = parts.body;
    let open_ir = lower_delimiter(cx, parts.open);
    let close_ir = lower_delimiter(cx, parts.close);
    let edges = open == SyntaxKind::LBracket;
    let lead_blank = edges && cx.consume_widened_gap_slice(&all, 0).0 >= 2;
    let trail_blank = edges && count_newlines_before(cx, &all) >= 2;
    let commented = cx.token_at(&all, 0, SyntaxKind::Comment);
    let opened = if commented {
        Ir::concat2(open_ir, Ir::verbatim(cx.t.text(all[0])))
    } else {
        open_ir
    };
    let rest = if commented {
        crate::context::part(&all, 1, all.len())
    } else {
        all
    };
    let n_rest: usize = rest.len();
    let open_glued = !keyval && !cx.is_gap_at(&rest, 0);
    let close_glued = !keyval && n_rest > 0 && !cx.is_gap_at(&rest, n_rest - 1);
    let body = lower_block_body(cx, &rest, open, Ghost(less));
    if body.is_nil() {
        if lead_blank || trail_blank {
            Ir::concat3(opened, Ir::EmptyLine, close_ir)
        } else if commented {
            Ir::concat3(opened, Ir::HardLine, close_ir)
        } else {
            Ir::concat2(opened, close_ir)
        }
    } else {
        Ir::concat4(
            opened,
            Ir::indent(Ir::concat2(lower_edge_break(lead_blank, open_glued), body)),
            lower_edge_break(trail_blank, close_glued),
            close_ir,
        )
    }
}

// ---- a group that touches an environment ---------------------------------------------------

/// Whether the element is content other than the delimiter.
pub open spec fn is_content(t: &Tree, es: Seq<usize>, i: int, delimiter: SyntaxKind) -> bool {
    0 <= i < es.len() && (!t.tok(es[i] as int) || (t.k(es[i] as int) != delimiter && !t.gap(es[i] as int) && t.k(
        es[i] as int,
    ) != SyntaxKind::Comment))
}

/// Whether an environment in the group touches other content.
pub open spec fn glued_environment(t: &Tree, n: int) -> bool {
    exists|i: int|
        #[trigger] node_at(t, t.kids(n), i, SyntaxKind::Environment) && (is_content(
            t,
            t.kids(n),
            i - 1,
            SyntaxKind::LBrace,
        ) || is_content(t, t.kids(n), i + 1, SyntaxKind::RBrace))
}

fn glued_group_content(cx: LowerCtx, es: &Vec<usize>, i: usize, delimiter: SyntaxKind) -> (r: bool)
    requires
        in_tree(cx.t, es@),
    ensures
        r == is_content(cx.t, es@, i as int, delimiter),
{
    i < es.len() && (!cx.t.is_token(es[i]) || (cx.t.kind(es[i]) != delimiter && !cx.t.is_gap(es[i]) && cx.t.kind(es[i])
        != SyntaxKind::Comment))
}

pub fn opaque_group_has_glued_environment_sibling(cx: LowerCtx, n: usize) -> (r: bool)
    requires
        cx.ok(),
        n < cx.t.n(),
    ensures
        r == glued_environment(cx.t, n as int),
{
    let es = cx.children(n);
    let mut i: usize = 0;
    while i < es.len()
        invariant
            es@ == cx.t.kids(n as int),
            in_tree(cx.t, es@),
            forall|j: int|
                0 <= j < i && #[trigger] node_at(cx.t, es@, j, SyntaxKind::Environment) ==> !(is_content(
                    cx.t,
                    es@,
                    j - 1,
                    SyntaxKind::LBrace,
                ) || is_content(cx.t, es@, j + 1, SyntaxKind::RBrace)),
        decreases es@.len() - i,
    {
        if cx.is_node_at(&es, i, SyntaxKind::Environment) {
            let left = i > 0 && glued_group_content(cx, &es, i - 1, SyntaxKind::LBrace);
            if left || glued_group_content(cx, &es, i + 1, SyntaxKind::RBrace) {
                return true;
            }
        }
        i = i + 1;
    }
    false
}

// ---- a body that fills its line ------------------------------------------------------------

/// What is known of a group while its content is put together.
pub struct Filling {
    pub open: Layout,
    pub close: Layout,
    /// The white space before the content.
    pub lead: Option<Seq<char>>,
    pub atoms: Seq<Layout>,
    /// The pieces of the atom in progress.
    pub atom: Seq<Layout>,
    /// The white space behind it, and whether it holds an empty line.
    pub pending: Option<(Seq<char>, bool)>,
}

impl Filling {
    /// The white space that was held back has found its place: a single space ends the atom.
    pub open spec fn committed(self) -> Filling {
        match self.pending {
            Some((gap, _)) => if gap == seq![' '] {
                Filling {
                    pending: None,
                    atoms: if self.atom.len() > 0 {
                        self.atoms.push(concat(self.atom))
                    } else {
                        self.atoms
                    },
                    atom: Seq::empty(),
                    ..self
                }
            } else {
                Filling { pending: None, atom: self.atom.push(verbatim(gap)), ..self }
            },
            None => self,
        }
    }

    pub open spec fn blank_pending(self) -> bool {
        match self.pending {
            Some((_, blank)) => blank,
            None => false,
        }
    }

    pub open spec fn with_piece(self, l: Layout) -> Filling {
        let s = self.committed();
        Filling { atom: s.atom.push(l), ..s }
    }

    /// The group as it stands on the line.
    pub open spec fn layout(self) -> Layout {
        let atoms = if self.atom.len() > 0 {
            self.atoms.push(concat(self.atom))
        } else {
            self.atoms
        };
        if atoms.len() == 0 {
            concat3(
                self.open,
                match self.lead {
                    Some(lead) => verbatim(lead),
                    None => Layout::Nil,
                },
                self.close,
            )
        } else {
            let before = match self.lead {
                Some(lead) => if lead == seq![' '] {
                    Layout::Nil
                } else {
                    verbatim(lead)
                },
                None => Layout::Nil,
            };
            let softly = self.lead == Some(seq![' ']);
            let filled = Layout::Fill(atoms);
            let body = if softly {
                concat3(Layout::SoftLine, if_break(space(), Layout::Nil), filled)
            } else {
                concat(seq![filled])
            };
            let behind = match self.pending {
                Some((gap, _)) => if gap == seq![' '] {
                    seq![if_break(space(), Layout::Nil), Layout::SoftLine]
                } else {
                    seq![verbatim(gap)]
                },
                None => Seq::empty(),
            };
            group(concat(seq![self.open, before, indent(body)] + behind + seq![self.close]))
        }
    }
}

/// What is known of the group once the elements from `i` on are behind, or nothing where it has
/// to be put on lines of its own.
pub open spec fn filling(cx: LowerCtx, es: Seq<usize>, i: int, s: Filling, fuel: nat) -> Option<Filling>
    decreases fuel, 70int, es.len() - i,
{
    if i < 0 || i >= es.len() {
        Some(s)
    } else {
        proof {
            lemma_gap_end(cx.t, es, i);
            lemma_blanks_end(cx.t, es, i + 1);
        }
        let e = es[i] as int;
        if cx.t.tok_is(e, SyntaxKind::LBrace) && s.open is Nil {
            filling(cx, es, i + 1, Filling { open: verbatim(cx.t.txt(e)), ..s }, fuel)
        } else if cx.t.tok_is(e, SyntaxKind::RBrace) {
            filling(cx, es, i + 1, Filling { close: verbatim(cx.t.txt(e)), ..s }, fuel)
        } else if cx.in_doc_region && cx.t.tok_is(e, SyntaxKind::DocMargin) {
            filling(cx, es, blanks_end(cx.t, es, i + 1), s, fuel)
        } else if cx.t.gap(e) {
            let gap = gap_of(cx.t, es, i);
            let next = if s.atoms.len() == 0 && s.atom.len() == 0 {
                Filling { lead: Some(gap.flat()), ..s }
            } else {
                Filling { pending: Some((gap.flat(), gap is Blank)), ..s }
            };
            filling(cx, es, gap_end(cx.t, es, i), next, fuel)
        } else if cx.t.tok(e) {
            if cx.t.k(e) == SyntaxKind::Comment || cx.t.txt(e).contains('\n') || s.blank_pending() {
                None
            } else {
                filling(cx, es, i + 1, s.with_piece(loose(cx, e)), fuel)
            }
        } else {
            let l = node(cx, e, fuel);
            if forces_break(l) || s.blank_pending() {
                None
            } else {
                filling(cx, es, i + 1, s.with_piece(l), fuel)
            }
        }
    }
}

/// What is known of a group at its start.
pub open spec fn nothing_filled() -> Filling {
    Filling { open: Layout::Nil, close: Layout::Nil, lead: None, atoms: Seq::empty(), atom: Seq::empty(), pending: None }
}

/// A group whose content nothing is known of: it fills its line, or stands on lines of its own
/// where it cannot.
pub open spec fn opaque_group(cx: LowerCtx, n: int, fuel: nat) -> Layout
    decreases fuel, 13int, 0int,
{
    let block = bracketed(cx, n, SyntaxKind::LBrace, SyntaxKind::RBrace, false, fuel);
    if authored_rows(cx, n) || fuel == 0 {
        block
    } else {
        match filling(cx, cell_elements(cx, cx.t.kids(n)), 0, nothing_filled(), (fuel - 1) as nat) {
            Some(s) => s.layout(),
            None => block,
        }
    }
}

struct GroupFill {
    open: Ir,
    close: Ir,
    lead: Option<String>,
    atoms: IrList,
    atom: IrList,
    pending: Option<(String, bool)>,
}

impl GroupFill {
    spec fn v(&self) -> Filling {
        Filling {
            open: self.open@,
            close: self.close@,
            lead: match self.lead {
                Some(lead) => Some(lead@),
                None => None,
            },
            atoms: self.atoms@,
            atom: self.atom@,
            pending: match self.pending {
                Some((gap, blank)) => Some((gap@, blank)),
                None => None,
            },
        }
    }

    fn blank_pending(&self) -> (r: bool)
        ensures
            r == self.v().blank_pending(),
    {
        match &self.pending {
            Some((_, blank)) => *blank,
            None => false,
        }
    }

    fn push(&mut self, ir: Ir)
        ensures
            final(self).v() == old(self).v().with_piece(ir@),
    {
        proof {
            reveal_strlit(" ");
            assert(" "@ =~= seq![' ']);
        }
        let pending = self.pending.take();
        match pending {
            Some((gap, _)) => {
                if str_eq(gap.as_str(), " ") {
                    let pieces = self.atom.take();
                    if !pieces.is_empty() {
                        self.atoms.push(Ir::concat(pieces));
                    }
                } else {
                    self.atom.push(Ir::verbatim(gap.as_str()));
                }
            },
            None => {},
        }
        self.atom.push(ir);
    }

    fn finish(self) -> (r: Ir)
        ensures
            r@ == self.v().layout(),
    {
        proof {
            reveal_strlit(" ");
            assert(" "@ =~= seq![' ']);
        }
        let ghost start = self.v();
        let mut s = self;
        if !s.atom.is_empty() {
            let pieces = s.atom.take();
            s.atoms.push(Ir::concat(pieces));
        }
        if s.atoms.is_empty() {
            let lead = match &s.lead {
                Some(lead) => Ir::verbatim(lead.as_str()),
                None => Ir::Nil,
            };
            return Ir::concat3(s.open, lead, s.close);
        }
        let ghost atoms = s.atoms@;
        let softly = match &s.lead {
            Some(lead) => str_eq(lead.as_str(), " "),
            None => false,
        };
        let before = match &s.lead {
            Some(lead) => if str_eq(lead.as_str(), " ") {
                Ir::Nil
            } else {
                Ir::verbatim(lead.as_str())
            },
            None => Ir::Nil,
        };
        let filled = Ir::fill(s.atoms);
        let body = if softly {
            Ir::concat3(Ir::SoftLine, Ir::if_break(Ir::space(), Ir::Nil), filled)
        } else {
            let mut one = IrList::new();
            one.push(filled);
            assert(one@ =~= seq![filled@]);
            Ir::concat(one)
        };
        let mut parts = IrList::new();
        parts.push(s.open);
        parts.push(before);
        parts.push(Ir::indent(body));
        let ghost three = parts@;
        assert(three =~= seq![s.open@, before@, indent(body@)]);
        let ghost mut behind: Seq<Layout> = Seq::empty();
        match &s.pending {
            Some((gap, _)) => {
                if str_eq(gap.as_str(), " ") {
                    parts.push(Ir::if_break(Ir::space(), Ir::Nil));
                    parts.push(Ir::SoftLine);
                    proof {
                        behind = seq![if_break(space(), Layout::Nil), Layout::SoftLine];
                    }
                } else {
                    parts.push(Ir::verbatim(gap.as_str()));
                    proof {
                        behind = seq![verbatim(gap@)];
                    }
                }
            },
            None => {},
        }
        assert(parts@ =~= three + behind);
        parts.push(s.close);
        assert(parts@ =~= three + behind + seq![s.close@]);
        Ir::group(Ir::concat(parts))
    }
}

pub fn lower_opaque_group(cx: LowerCtx, n: usize, Ghost(fuel): Ghost<nat>) -> (r: Ir)
    requires
        cx.ok(),
        room(cx.t, n as int, fuel),
    ensures
        r@ == opaque_group(cx, n as int, fuel),
    decreases fuel, 13int, 0int,
{
    if plain_opaque_block_has_authored_rows(cx, n) {
        return lower_bracketed(cx, n, SyntaxKind::LBrace, SyntaxKind::RBrace, false, Ghost(fuel));
    }
    let ghost less = (fuel - 1) as nat;
    let es = alignment_cell_elements(cx, cx.children(n), Ghost(less));
    let mut s = GroupFill {
        open: Ir::Nil,
        close: Ir::Nil,
        lead: None,
        atoms: IrList::new(),
        atom: IrList::new(),
        pending: None,
    };
    let ghost start = nothing_filled();
    assert(s.v() == start);
    let mut i: usize = 0;
    while i < es.len()
        invariant
            cx.ok(),
            room(cx.t, n as int, fuel),
            fuel > 0,
            less == fuel - 1,
            !authored_rows(cx, n as int),
            es@ == cell_elements(cx, cx.t.kids(n as int)),
            fits(cx.t, es@, less),
            i <= es@.len(),
            start == nothing_filled(),
            filling(cx, es@, i as int, s.v(), less) == filling(cx, es@, 0, start, less),
        decreases es@.len() - i,
    {
        let e: usize = es[i];
        assert(room(cx.t, es@[i as int] as int, less));
        if cx.t.token_is(e, SyntaxKind::LBrace) && s.open.is_nil() {
            s.open = Ir::verbatim(cx.t.text(e));
            i = i + 1;
        } else if cx.t.token_is(e, SyntaxKind::RBrace) {
            s.close = Ir::verbatim(cx.t.text(e));
            i = i + 1;
        } else if cx.in_doc_region && cx.t.token_is(e, SyntaxKind::DocMargin) {
            i = cx.skip_blanks(&es, i + 1);
        } else if cx.t.is_gap(e) {
            let (gap, end) = cx.consume_gap(&es, i);
            let flat = gap.flat().to_owned();
            if s.atoms.is_empty() && s.atom.is_empty() {
                s.lead = Some(flat);
            } else {
                s.pending = Some((flat, gap.is_blank()));
            }
            i = end;
        } else if cx.t.is_token(e) {
            if cx.t.kind(e) == SyntaxKind::Comment || contains_char(cx.t.text(e), '\n') || s.blank_pending() {
                return lower_bracketed(cx, n, SyntaxKind::LBrace, SyntaxKind::RBrace, false, Ghost(fuel));
            }
            s.push(lower_loose_token(cx, e));
            i = i + 1;
        } else {
            let ir = lower_node(cx, e, Ghost(less));
            if ir.contains_forced_break() || s.blank_pending() {
                return lower_bracketed(cx, n, SyntaxKind::LBrace, SyntaxKind::RBrace, false, Ghost(fuel));
            }
            s.push(ir);
            i = i + 1;
        }
    }
    s.finish()
}

// ---- rows that the author has set ----------------------------------------------------------

/// Whether an element may stand in rows that the author has set.
pub open spec fn row_element(t: &Tree, e: int) -> bool {
    if t.tok(e) {
        t.k(e) == SyntaxKind::LBrace || t.k(e) == SyntaxKind::RBrace || t.k(e) == SyntaxKind::Word || collapsible_kind(
            t.k(e),
        )
    } else {
        t.k(e) == SyntaxKind::LineBreak
    }
}

pub open spec fn collapsible_kind(kind: SyntaxKind) -> bool {
    kind == SyntaxKind::Whitespace || kind == SyntaxKind::Newline
}

/// Whether the last element before `i` that is not white space is a word.
pub open spec fn word_before(t: &Tree, es: Seq<usize>, i: int) -> bool
    decreases i,
{
    if gap_at(t, es, i - 1) {
        word_before(t, es, i - 1)
    } else {
        tok_at(t, es, i - 1, SyntaxKind::Word)
    }
}

/// Whether the row break `i` stands at the end of a line between two words.
pub open spec fn row_break(t: &Tree, es: Seq<usize>, i: int) -> bool {
    word_before(t, es, i) && gap_newlines(t, es, i + 1) == 1 && tok_at(t, es, gap_end(t, es, i + 1), SyntaxKind::Word)
}

/// Whether the elements are words on lines that each end in a row break.
pub open spec fn rows_of_words(t: &Tree, es: Seq<usize>) -> bool {
    &&& forall|i: int| 0 <= i < es.len() ==> row_element(t, #[trigger] es[i] as int)
    &&& exists|i: int| #[trigger] node_at(t, es, i, SyntaxKind::LineBreak)
    &&& forall|i: int| #[trigger] node_at(t, es, i, SyntaxKind::LineBreak) ==> row_break(t, es, i)
}

/// Whether the command is all that the paragraph holds.
pub open spec fn alone_in(t: &Tree, es: Seq<usize>, c: int) -> bool {
    exists|i: int| 0 <= i < es.len() && (#[trigger] es[i]) == c && forall|j: int|
        0 <= j < es.len() && j != i ==> t.gap(#[trigger] es[j] as int)
}

/// Whether the group is the argument of a command in a paragraph of its own, and holds rows that
/// the author has set.
pub open spec fn authored_rows(cx: LowerCtx, n: int) -> bool {
    let t = cx.t;
    &&& !cx.in_doc_region
    &&& parent_is(t, n, SyntaxKind::Command)
    &&& parent_is(t, t.up(n), SyntaxKind::Paragraph)
    &&& !doc_paragraph(t, t.up(t.up(n)))
    &&& !t.gap(t.up(n))
    &&& alone_in(t, t.kids(t.up(t.up(n))), t.up(n))
    &&& rows_of_words(t, t.kids(n))
}

fn is_alone_in(cx: LowerCtx, es: &Vec<usize>, c: usize) -> (r: bool)
    requires
        in_tree(cx.t, es@),
        c < cx.t.n(),
        !cx.t.gap(c as int),
    ensures
        r == alone_in(cx.t, es@, c as int),
{
    let mut found: Option<usize> = None;
    let mut i: usize = 0;
    while i < es.len()
        invariant
            in_tree(cx.t, es@),
            !cx.t.gap(c as int),
            i <= es@.len(),
            found matches Some(k) ==> k < i && es@[k as int] == c && forall|j: int|
                0 <= j < i && j != k ==> cx.t.gap(#[trigger] es@[j] as int),
            found is None ==> forall|j: int| 0 <= j < i ==> cx.t.gap(#[trigger] es@[j] as int),
        decreases es@.len() - i,
    {
        if !cx.t.is_gap(es[i]) {
            if found.is_some() || es[i] != c {
                proof {
                    if alone_in(cx.t, es@, c as int) {
                        let k = choose|k: int|
                            0 <= k < es@.len() && (#[trigger] es@[k]) == c && forall|j: int|
                                0 <= j < es@.len() && j != k ==> cx.t.gap(#[trigger] es@[j] as int);
                        assert(k == i);
                        if found is Some {
                            assert(cx.t.gap(es@[found->0 as int] as int));
                        }
                    }
                }
                return false;
            }
            found = Some(i);
        }
        i = i + 1;
    }
    if found.is_some() {
        assert(es@[found->0 as int] == c);
        true
    } else {
        proof {
            if alone_in(cx.t, es@, c as int) {
                let k = choose|k: int|
                    0 <= k < es@.len() && (#[trigger] es@[k]) == c && forall|j: int|
                        0 <= j < es@.len() && j != k ==> cx.t.gap(#[trigger] es@[j] as int);
                assert(cx.t.gap(es@[k] as int));
            }
        }
        false
    }
}

fn is_row_break(cx: LowerCtx, es: &Vec<usize>, i: usize) -> (r: bool)
    requires
        in_tree(cx.t, es@),
        i < es@.len(),
    ensures
        r == row_break(cx.t, es@, i as int),
{
    assert(i < es.len());
    let mut j: usize = i;
    while j > 0 && cx.is_gap_at(es, j - 1)
        invariant
            in_tree(cx.t, es@),
            j <= i < es@.len(),
            word_before(cx.t, es@, j as int) == word_before(cx.t, es@, i as int),
        decreases j,
    {
        j = j - 1;
    }
    let left = j > 0 && cx.token_at(es, j - 1, SyntaxKind::Word);
    let (newlines, end) = cx.consume_widened_gap_slice(es, i + 1);
    left && newlines == 1 && cx.token_at(es, end, SyntaxKind::Word)
}

fn is_row_element(cx: LowerCtx, e: usize) -> (r: bool)
    requires
        e < cx.t.n(),
    ensures
        r == row_element(cx.t, e as int),
{
    let k = cx.t.kind(e);
    if cx.t.is_token(e) {
        k == SyntaxKind::LBrace || k == SyntaxKind::RBrace || k == SyntaxKind::Word || k == SyntaxKind::Whitespace || k
            == SyntaxKind::Newline
    } else {
        k == SyntaxKind::LineBreak
    }
}

fn are_rows_of_words(cx: LowerCtx, es: &Vec<usize>) -> (r: bool)
    requires
        in_tree(cx.t, es@),
    ensures
        r == rows_of_words(cx.t, es@),
{
    let mut i: usize = 0;
    while i < es.len()
        invariant
            in_tree(cx.t, es@),
            i <= es@.len(),
            forall|j: int| 0 <= j < i ==> row_element(cx.t, #[trigger] es@[j] as int),
        decreases es@.len() - i,
    {
        if !is_row_element(cx, es[i]) {
            return false;
        }
        i = i + 1;
    }
    let mut saw = false;
    i = 0;
    while i < es.len()
        invariant
            in_tree(cx.t, es@),
            i <= es@.len(),
            saw == exists|j: int| j < i && #[trigger] node_at(cx.t, es@, j, SyntaxKind::LineBreak),
            forall|j: int| j < i && #[trigger] node_at(cx.t, es@, j, SyntaxKind::LineBreak) ==> row_break(cx.t, es@, j),
        decreases es@.len() - i,
    {
        if cx.is_node_at(es, i, SyntaxKind::LineBreak) {
            saw = true;
            if !is_row_break(cx, es, i) {
                return false;
            }
        }
        i = i + 1;
    }
    saw
}

pub fn plain_opaque_block_has_authored_rows(cx: LowerCtx, n: usize) -> (r: bool)
    requires
        cx.ok(),
        n < cx.t.n(),
    ensures
        r == authored_rows(cx, n as int),
{
    if cx.in_doc_region || !has_parent(cx, n, SyntaxKind::Command) {
        return false;
    }
    proof {
        reveal(LowerCtx::ok);
        assert(cx.t.up(n as int) < n);
    }
    let command: usize = cx.t.parent(n);
    if !has_parent(cx, command, SyntaxKind::Paragraph) {
        return false;
    }
    assert(cx.t.up(command as int) < command);
    let paragraph: usize = cx.t.parent(command);
    if is_dtx_doc_paragraph(cx, paragraph) || cx.t.is_gap(command) {
        return false;
    }
    is_alone_in(cx, &cx.children(paragraph), command) && are_rows_of_words(cx, &cx.children(n))
}

} // verus!

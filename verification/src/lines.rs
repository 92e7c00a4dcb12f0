//! The lines of a paragraph as they are put together.
//!
//! Pieces that touch make an atom, atoms make a run, and a finished run is a line. What the
//! builder holds is described by [`Lines`].

use vstd::prelude::*;

use crate::context::Boundary;
use crate::ir::{concat, concat2, concat3, interleave, space, verbatim, Ir, IrList, Layout};
use crate::signatures::CitationPlacement;
use crate::text::str_eq;

verus! {

/// How a finished run is put on lines.
#[derive(Clone, Copy, Debug, PartialEq, Eq, Structural)]
pub enum RunRender {
    /// Its atoms fill the line.
    Fill,
    /// Its atoms fill the line up to `target`, near the breaks that are there.
    Stable { target: usize },
    /// Each of its sentences is one line.
    Sentence,
}

/// Where the citations at the end of an atom start, counted in characters.
#[derive(Clone, Copy, Debug, PartialEq, Eq, Structural)]
pub struct CitationSuffix {
    pub start: usize,
    pub placement: CitationPlacement,
}

/// One atom of a run.
pub struct RunAtom {
    pub ir: Ir,
    /// What the atom reads in the source.
    pub text: String,
    pub citation: Option<CitationSuffix>,
    /// Whether the source breaks the line before the atom.
    pub broken_before: bool,
}

/// The mathematical content of a [`RunAtom`].
pub struct Atom {
    pub layout: Layout,
    pub text: Seq<char>,
    pub citation: Option<CitationSuffix>,
    pub broken_before: bool,
}

impl View for RunAtom {
    type V = Atom;

    open spec fn view(&self) -> Atom {
        Atom {
            layout: self.ir@,
            text: self.text@,
            citation: self.citation,
            broken_before: self.broken_before,
        }
    }
}

/// The contents of a run.
pub open spec fn atoms(run: Seq<RunAtom>) -> Seq<Atom> {
    Seq::new(run.len(), |i: int| run[i]@)
}

/// The layouts of the atoms of a run.
pub open spec fn atom_layouts(run: Seq<Atom>) -> Seq<Layout> {
    Seq::new(run.len(), |i: int| run[i].layout)
}

// ---- sentences -----------------------------------------------------------------------------

/// Whether a sentence ends between `word` and `next`.
pub open spec fn sentence_ends(pairs: Seq<Boundary>, word: Seq<char>, next: Seq<char>) -> bool {
    exists|k: int| 0 <= k < pairs.len() && (#[trigger] pairs[k]).word@ == word && pairs[k].next@ == next
}

pub fn is_sentence_boundary(pairs: &Vec<Boundary>, word: &str, next: &str) -> (r: bool)
    ensures
        r == sentence_ends(pairs@, word@, next@),
{
    let mut i: usize = 0;
    while i < pairs.len()
        invariant
            i <= pairs@.len(),
            forall|k: int| 0 <= k < i ==> !((#[trigger] pairs@[k]).word@ == word@ && pairs@[k].next@ == next@),
        decreases pairs@.len() - i,
    {
        if str_eq(pairs[i].word.as_str(), word) && str_eq(pairs[i].next.as_str(), next) {
            return true;
        }
        i = i + 1;
    }
    false
}

/// What stands before the citations of an atom, without the tie that binds them.
pub open spec fn before_citation(text: Seq<char>, start: int) -> Seq<char> {
    let before = text.take(start);
    if before.len() > 0 && before.last() == '~' {
        before.drop_last()
    } else {
        before
    }
}

/// Whether a sentence ends in or behind the atom: before the next atom, or before the citations
/// at its own end.
pub open spec fn atom_ends_sentence(run: Seq<Atom>, pairs: Seq<Boundary>, i: int) -> bool {
    sentence_ends(pairs, run[i].text, run[i + 1].text) || match run[i].citation {
        Some(suffix) => suffix.start > 0 && sentence_ends(
            pairs,
            before_citation(run[i].text, suffix.start as int),
            run[i].text.skip(suffix.start as int),
        ),
        None => false,
    }
}

/// Whether an atom is a citation that belongs to the sentence before it.
pub open spec fn cites_before(atom: Atom) -> bool {
    match atom.citation {
        Some(suffix) => suffix.start == 0 && match suffix.placement {
            CitationPlacement::Postpositive => true,
            CitationPlacement::Ambiguous => !atom.broken_before,
            CitationPlacement::Textual => false,
        },
        None => false,
    }
}

/// The last atom of the sentence that ends in atom `i`: its citations are part of it.
pub open spec fn sentence_end(run: Seq<Atom>, i: int) -> int
    decreases run.len() - i,
{
    if 0 <= i && i + 1 < run.len() && cites_before(run[i + 1]) {
        sentence_end(run, i + 1)
    } else {
        i
    }
}

/// Whether the line is broken behind atom `k`.
pub open spec fn broken_after(run: Seq<Atom>, pairs: Seq<Boundary>, k: int) -> bool {
    k + 1 < run.len() && exists|i: int|
        0 <= i < run.len() - 1 && #[trigger] atom_ends_sentence(run, pairs, i) && sentence_end(run, i) == k
}

/// The finished sentences and the pieces of the one in progress once `k` atoms are behind.
pub open spec fn sentences(run: Seq<Atom>, pairs: Seq<Boundary>, k: int) -> (Seq<Layout>, Seq<Layout>)
    decreases k,
{
    if k <= 0 {
        (Seq::empty(), Seq::empty())
    } else {
        let (done, current) = sentences(run, pairs, k - 1);
        let spaced = if current.len() > 0 {
            current.push(Layout::Text(seq![' ']))
        } else {
            current
        };
        let grown = spaced.push(run[k - 1].layout);
        if broken_after(run, pairs, k - 1) {
            (done.push(concat(grown)), Seq::empty())
        } else {
            (done, grown)
        }
    }
}

/// A run with one sentence to a line.
pub open spec fn sentence_lines(run: Seq<Atom>, pairs: Seq<Boundary>) -> Layout {
    let (done, current) = sentences(run, pairs, run.len() as int);
    let all = if current.len() > 0 {
        done.push(concat(current))
    } else {
        done
    };
    concat(interleave(Layout::HardLine, all))
}

fn ends_sentence_at(run: &Vec<RunAtom>, pairs: &Vec<Boundary>, i: usize) -> (r: bool)
    requires
        i + 1 < run@.len(),
        forall|k: int|
            0 <= k < run@.len() ==> ((#[trigger] run@[k]).citation matches Some(suffix) ==> suffix.start <= run@[k].text@.len()),
    ensures
        r == atom_ends_sentence(atoms(run@), pairs@, i as int),
{
    assert(i + 1 < run.len());
    let text = run[i].text.as_str();
    if is_sentence_boundary(pairs, text, run[i + 1].text.as_str()) {
        return true;
    }
    match run[i].citation {
        Some(suffix) => {
            if suffix.start == 0 {
                return false;
            }
            assert(run@[i as int].citation == Some(suffix));
            let n: usize = text.unicode_len();
            let before = if text.get_char(suffix.start - 1) == '~' {
                text.substring_char(0, suffix.start - 1)
            } else {
                text.substring_char(0, suffix.start)
            };
            assert(text@.take(suffix.start as int).last() == text@[suffix.start - 1]);
            assert(text@.take(suffix.start as int).drop_last() =~= text@.subrange(0, suffix.start - 1));
            assert(text@.take(suffix.start as int) =~= text@.subrange(0, suffix.start as int));
            assert(text@.skip(suffix.start as int) =~= text@.subrange(suffix.start as int, n as int));
            is_sentence_boundary(pairs, before, text.substring_char(suffix.start, n))
        },
        None => false,
    }
}

fn cites_the_sentence_before(atom: &RunAtom) -> (r: bool)
    ensures
        r == cites_before(atom@),
{
    match atom.citation {
        Some(suffix) => suffix.start == 0 && match suffix.placement {
            CitationPlacement::Postpositive => true,
            CitationPlacement::Ambiguous => !atom.broken_before,
            CitationPlacement::Textual => false,
        },
        None => false,
    }
}

/// Puts each sentence of a run on a line of its own.
pub fn render_sentences(run: &Vec<RunAtom>, pairs: &Vec<Boundary>) -> (r: Ir)
    requires
        forall|k: int|
            0 <= k < run@.len() ==> ((#[trigger] run@[k]).citation matches Some(suffix) ==> suffix.start <= run@[k].text@.len()),
    ensures
        r@ == sentence_lines(atoms(run@), pairs@),
{
    let ghost all = atoms(run@);
    let n: usize = run.len();
    let mut breaks: Vec<bool> = Vec::new();
    let mut i: usize = 0;
    while i < n
        invariant
            i <= n,
            breaks@.len() == i,
            forall|k: int| 0 <= k < i ==> !(#[trigger] breaks@[k]),
        decreases n - i,
    {
        breaks.push(false);
        i = i + 1;
    }
    i = 0;
    while n > 0 && i < n - 1
        invariant
            n == run@.len(),
            breaks@.len() == n,
            i <= n,
            all == atoms(run@),
            forall|k: int|
                0 <= k < run@.len() ==> ((#[trigger] run@[k]).citation matches Some(suffix) ==> suffix.start <= run@[k].text@.len()),
            forall|k: int|
                0 <= k < n ==> (#[trigger] breaks@[k]) == (k + 1 < n && exists|j: int|
                    0 <= j < i && j < n - 1 && #[trigger] atom_ends_sentence(all, pairs@, j) && sentence_end(all, j) == k),
        decreases n - i,
    {
        let ghost before = breaks@;
        if ends_sentence_at(run, pairs, i) {
            let mut end: usize = i;
            while end + 1 < n && cites_the_sentence_before(&run[end + 1])
                invariant
                    n == run@.len(),
                    i <= end < n,
                    all == atoms(run@),
                    sentence_end(all, end as int) == sentence_end(all, i as int),
                decreases n - end,
            {
                end = end + 1;
            }
            proof {
                assert(sentence_end(all, i as int) == end);
                assert(atom_ends_sentence(all, pairs@, i as int));
            }
            breaks.set(end, end + 1 < n);
            assert forall|k: int| 0 <= k < n implies (#[trigger] breaks@[k]) == (k + 1 < n && exists|j: int|
                0 <= j < i + 1 && j < n - 1 && #[trigger] atom_ends_sentence(all, pairs@, j) && sentence_end(all, j) == k) by {
                assert(k != end ==> breaks@[k] == before[k]);
            }
        } else {
            assert forall|k: int| 0 <= k < n implies (#[trigger] breaks@[k]) == (k + 1 < n && exists|j: int|
                0 <= j < i + 1 && j < n - 1 && #[trigger] atom_ends_sentence(all, pairs@, j) && sentence_end(all, j) == k) by {
                assert(breaks@[k] == before[k]);
            }
        }
        i = i + 1;
    }
    assert forall|k: int| 0 <= k < n implies (#[trigger] breaks@[k]) == broken_after(all, pairs@, k) by {}
    let mut done = IrList::new();
    let mut current = IrList::new();
    let mut k: usize = 0;
    while k < n
        invariant
            n == run@.len(),
            k <= n,
            breaks@.len() == n,
            all == atoms(run@),
            forall|k: int| 0 <= k < n ==> (#[trigger] breaks@[k]) == broken_after(all, pairs@, k),
            (done@, current@) == sentences(all, pairs@, k as int),
        decreases n - k,
    {
        if !current.is_empty() {
            current.push(Ir::text_space());
        }
        current.push(run[k].ir.clone());
        if breaks[k] {
            let grown = current.take();
            done.push(Ir::concat(grown));
        }
        k = k + 1;
    }
    if !current.is_empty() {
        done.push(Ir::concat(current));
    }
    Ir::join(Ir::HardLine, done)
}

// ---- the builder ---------------------------------------------------------------------------

/// The margin of a line of documentation.
pub open spec fn doc_margin() -> Seq<char> {
    "% "@
}

/// What a builder holds.
pub struct Lines {
    /// The pieces of the atom in progress, and what they read in the source.
    pub atom: Seq<Layout>,
    pub text: Seq<char>,
    pub citation: Option<CitationSuffix>,
    /// Whether the source breaks the line before the next atom.
    pub break_before: bool,
    pub run: Seq<Atom>,
    /// The finished lines, and the separator before each.
    pub lines: Seq<Layout>,
    pub seps: Seq<Layout>,
    /// What is still to be put behind the last finished line.
    pub tail: Seq<Layout>,
    /// The separator before the next line.
    pub pending: Layout,
    /// Whether each line carries the margin of documentation.
    pub margin: bool,
    /// Whether something was put on a line without the margin.
    pub escaped: bool,
    pub render: RunRender,
}

/// A run as one line, or as one line to a sentence.
pub open spec fn rendered(run: Seq<Atom>, render: RunRender, pairs: Seq<Boundary>) -> Layout {
    match render {
        RunRender::Fill => Layout::Fill(atom_layouts(run)),
        RunRender::Stable { target } => Layout::PreferredFill {
            atoms: atom_layouts(run),
            preferred: breaks_of(run),
            target: target as int,
        },
        RunRender::Sentence => sentence_lines(run, pairs),
    }
}

/// Before which atoms but the first the source breaks the line.
pub open spec fn breaks_of(run: Seq<Atom>) -> Seq<bool> {
    Seq::new(if run.len() > 0 { (run.len() - 1) as nat } else { 0 }, |i: int| run[i + 1].broken_before)
}

/// A segment with the margin, where there is one.
pub open spec fn margined(body: Layout, margin: bool) -> Layout {
    if margin {
        Layout::MarginPrefix { margin: doc_margin(), body: Box::new(body) }
    } else {
        body
    }
}

/// A piece with the space that stands before it, where there is one.
pub open spec fn spaced(l: Layout, gap: bool) -> Layout {
    if gap {
        concat2(space(), l)
    } else {
        l
    }
}

/// Lines with the separators between them.
pub open spec fn joined(lines: Seq<Layout>, seps: Seq<Layout>) -> Seq<Layout>
    decreases lines.len(),
{
    if lines.len() == 0 {
        Seq::empty()
    } else if lines.len() == 1 {
        lines
    } else {
        joined(lines.drop_last(), seps).push(seps[lines.len() - 1]).push(lines.last())
    }
}

impl Lines {
    pub open spec fn empty(margin: bool, render: RunRender) -> Lines {
        Lines {
            atom: Seq::empty(),
            text: Seq::empty(),
            citation: None,
            break_before: false,
            run: Seq::empty(),
            lines: Seq::empty(),
            seps: Seq::empty(),
            tail: Seq::empty(),
            pending: Layout::HardLine,
            margin,
            escaped: false,
            render,
        }
    }

    /// The citations of the atoms start within them, and every line has its separator.
    pub open spec fn ok(self) -> bool {
        &&& self.seps.len() == self.lines.len()
        &&& self.citation matches Some(suffix) ==> suffix.start <= self.text.len()
        &&& forall|k: int|
            0 <= k < self.run.len() ==> ((#[trigger] self.run[k]).citation matches Some(suffix) ==> suffix.start
                <= self.run[k].text.len())
    }

    pub open spec fn with_escape(self) -> Lines {
        Lines { escaped: self.escaped || self.margin, ..self }
    }

    pub open spec fn with_piece(self, l: Layout, text: Seq<char>) -> Lines {
        Lines { atom: self.atom.push(l), text: self.text + text, citation: None, ..self }
    }

    pub open spec fn with_citation(self, l: Layout, text: Seq<char>, placement: CitationPlacement) -> Lines {
        Lines {
            atom: self.atom.push(l),
            text: self.text + text,
            citation: match self.citation {
                Some(suffix) => Some(suffix),
                None => Some(CitationSuffix { start: self.text.len() as usize, placement }),
            },
            ..self
        }
    }

    /// The atom in progress is finished. Under a margin an atom is what it reads in the source.
    pub open spec fn flushed(self) -> Lines {
        if self.atom.len() == 0 {
            self
        } else {
            Lines {
                atom: Seq::empty(),
                text: Seq::empty(),
                citation: None,
                break_before: false,
                run: self.run.push(
                    Atom {
                        layout: if self.margin {
                            verbatim(self.text)
                        } else {
                            concat(self.atom)
                        },
                        text: self.text,
                        citation: self.citation,
                        broken_before: self.break_before,
                    },
                ),
                ..self
            }
        }
    }

    pub open spec fn preferring_break(self) -> Lines {
        Lines { break_before: self.break_before || self.run.len() > 0, ..self }
    }

    /// What was still to be put behind the last line is there.
    pub open spec fn sealed(self) -> Lines {
        if self.tail.len() == 0 {
            self
        } else if self.lines.len() == 0 {
            Lines { tail: Seq::empty(), ..self }
        } else {
            Lines {
                tail: Seq::empty(),
                lines: self.lines.drop_last().push(concat(seq![self.lines.last()] + self.tail)),
                ..self
            }
        }
    }

    pub open spec fn with_segment(self, content: Layout) -> Lines {
        let s = self.sealed();
        Lines {
            lines: s.lines.push(content),
            seps: s.seps.push(s.pending),
            pending: Layout::HardLine,
            ..s
        }
    }

    pub open spec fn with_pending(self, sep: Layout) -> Lines {
        Lines { pending: sep, ..self }
    }

    /// The next line stands apart: behind an empty line, or an empty line of documentation.
    pub open spec fn section_apart(self) -> Lines {
        self.with_pending(
            if self.margin {
                concat3(Layout::HardLine, Layout::ColumnZero("%"@), Layout::HardLine)
            } else {
                Layout::EmptyLine
            },
        )
    }

    pub open spec fn with_margined_block(self, l: Layout) -> Lines {
        self.with_segment(concat2(Layout::ColumnZero(doc_margin()), l))
    }

    /// A comment rides on the end of its line.
    pub open spec fn with_comment(self, text: Seq<char>) -> Lines {
        if self.atom.len() > 0 || self.run.len() == 0 {
            self.with_piece(verbatim(text), text)
        } else {
            let last = self.run.last();
            Lines {
                run: self.run.drop_last().push(
                    Atom {
                        layout: concat3(last.layout, space(), verbatim(text)),
                        text: last.text.push(' ') + text,
                        ..last
                    },
                ),
                ..self
            }
        }
    }

    pub open spec fn riding(self, l: Layout) -> Lines {
        if self.lines.len() > 0 {
            Lines { tail: self.tail.push(l), ..self }
        } else {
            self
        }
    }

    /// The line in progress is finished.
    pub open spec fn ended(self, pairs: Seq<Boundary>) -> Lines {
        let s = self.flushed();
        if s.run.len() == 0 {
            s
        } else {
            (Lines { run: Seq::empty(), ..s }).with_segment(margined(rendered(s.run, s.render, pairs), s.margin))
        }
    }

    /// The line in progress is finished. An atom that spans lines is measured by its first one.
    pub open spec fn hugged(self) -> Lines {
        let s = self.flushed();
        if s.run.len() == 0 {
            s
        } else {
            let parts = atom_layouts(s.run);
            let body = if parts.len() == 1 {
                parts[0]
            } else {
                Layout::HugFill(interleave(Layout::Line, parts))
            };
            (Lines { run: Seq::empty(), ..s }).with_segment(margined(body, s.margin))
        }
    }

    /// All the lines, with the separators between them.
    pub open spec fn finished(self, pairs: Seq<Boundary>) -> Layout {
        let s = self.ended(pairs).sealed();
        concat(joined(s.lines, s.seps))
    }
}

/// Puts the lines of a paragraph together.
pub struct LineBuilder<'a> {
    atom: IrList,
    text: String,
    citation: Option<CitationSuffix>,
    break_before: bool,
    run: Vec<RunAtom>,
    lines: IrList,
    seps: IrList,
    tail: IrList,
    pending: Ir,
    margin: bool,
    escaped: bool,
    render: RunRender,
    pairs: &'a Vec<Boundary>,
}

impl<'a> View for LineBuilder<'a> {
    type V = Lines;

    closed spec fn view(&self) -> Lines {
        Lines {
            atom: self.atom@,
            text: self.text@,
            citation: self.citation,
            break_before: self.break_before,
            run: atoms(self.run@),
            lines: self.lines@,
            seps: self.seps@,
            tail: self.tail@,
            pending: self.pending@,
            margin: self.margin,
            escaped: self.escaped,
            render: self.render,
        }
    }
}

impl<'a> LineBuilder<'a> {
    /// The pairs of words that a sentence ends between.
    pub closed spec fn pairs_of(&self) -> Seq<Boundary> {
        self.pairs@
    }

    pub fn new(margin: bool, render: RunRender, pairs: &'a Vec<Boundary>) -> (r: LineBuilder<'a>)
        ensures
            r@ == Lines::empty(margin, render),
            r@.ok(),
            r.pairs_of() == pairs@,
    {
        let r = LineBuilder {
            atom: IrList::new(),
            text: String::new(),
            citation: None,
            break_before: false,
            run: Vec::new(),
            lines: IrList::new(),
            seps: IrList::new(),
            tail: IrList::new(),
            pending: Ir::HardLine,
            margin,
            escaped: false,
            render,
            pairs,
        };
        assert(r@.text =~= Seq::<char>::empty());
        assert(r@.run =~= Seq::<Atom>::empty());
        r
    }

    pub fn atom_is_empty(&self) -> (r: bool)
        ensures
            r == (self@.atom.len() == 0),
    {
        self.atom.is_empty()
    }

    pub fn has_margin(&self) -> (r: bool)
        ensures
            r == self@.margin,
    {
        self.margin
    }

    /// Whether a run fills its lines.
    pub fn fills(&self) -> (r: bool)
        ensures
            r == (self@.render == RunRender::Fill),
    {
        self.render == RunRender::Fill
    }

    pub fn margin_escaped(&self) -> (r: bool)
        ensures
            r == self@.escaped,
    {
        self.escaped
    }

    /// Something is about to be put on a line without the margin.
    pub fn note_margin_escape(&mut self)
        requires
            old(self)@.ok(),
        ensures
            final(self)@ == old(self)@.with_escape(),
            final(self)@.ok(),
            final(self).pairs_of() == old(self).pairs_of(),
    {
        if self.margin {
            self.escaped = true;
        }
    }

    /// Puts a piece behind the atom in progress.
    pub fn push_atom_piece(&mut self, ir: Ir, text: &str)
        requires
            old(self)@.ok(),
        ensures
            final(self)@ == old(self)@.with_piece(ir@, text@),
            final(self)@.ok(),
            final(self).pairs_of() == old(self).pairs_of(),
    {
        self.atom.push(ir);
        self.text.append(text);
        self.citation = None;
    }

    /// Puts a citation behind the atom in progress. Citations that touch are one.
    pub fn push_trailing_citation(&mut self, ir: Ir, text: &str, placement: CitationPlacement)
        requires
            old(self)@.ok(),
        ensures
            final(self)@ == old(self)@.with_citation(ir@, text@, placement),
            final(self)@.ok(),
            final(self).pairs_of() == old(self).pairs_of(),
    {
        let start: usize = self.text.as_str().unicode_len();
        if self.citation.is_none() {
            self.citation = Some(CitationSuffix { start, placement });
        }
        self.atom.push(ir);
        self.text.append(text);
    }

    /// Finishes the atom in progress.
    pub fn flush_atom(&mut self)
        requires
            old(self)@.ok(),
        ensures
            final(self)@ == old(self)@.flushed(),
            final(self)@.ok(),
            final(self).pairs_of() == old(self).pairs_of(),
    {
        if !self.atom.is_empty() {
            let ghost before = self@;
            let text = self.text.clone();
            self.text = String::new();
            let pieces = self.atom.take();
            let ir = if self.margin {
                Ir::verbatim(text.as_str())
            } else {
                Ir::concat(pieces)
            };
            let citation = self.citation;
            self.citation = None;
            let broken_before = self.break_before;
            self.break_before = false;
            let ghost run = self.run@;
            self.run.push(RunAtom { ir, text, citation, broken_before });
            proof {
                assert(self@.text =~= Seq::<char>::empty());
                assert(atoms(self.run@) =~= atoms(run).push(self.run@.last()@));
                assert forall|k: int| 0 <= k < self@.run.len() implies ((#[trigger] self@.run[k]).citation matches Some(suffix)
                    ==> suffix.start <= self@.run[k].text.len()) by {
                    if k < before.run.len() {
                        assert(self@.run[k] == before.run[k]);
                    }
                }
            }
        }
    }

    /// The source breaks the line here.
    pub fn prefer_next_break(&mut self)
        requires
            old(self)@.ok(),
        ensures
            final(self)@ == old(self)@.preferring_break(),
            final(self)@.ok(),
            final(self).pairs_of() == old(self).pairs_of(),
    {
        if self.run.len() > 0 {
            self.break_before = true;
        }
    }

    /// Puts what rides on the last line there.
    fn seal_last_line(&mut self)
        requires
            old(self)@.ok(),
        ensures
            final(self)@ == old(self)@.sealed(),
            final(self)@.ok(),
            final(self).pairs_of() == old(self).pairs_of(),
    {
        if self.tail.is_empty() {
            return;
        }
        let tail = self.tail.take();
        if !self.lines.is_empty() {
            let last = self.lines.pop();
            let mut all = IrList::new();
            all.push(last);
            all.extend(tail);
            assert(all@ =~= seq![last@] + tail@);
            self.lines.push(Ir::concat(all));
        }
    }

    /// Adds a finished line.
    pub fn push_segment(&mut self, content: Ir)
        requires
            old(self)@.ok(),
        ensures
            final(self)@ == old(self)@.with_segment(content@),
            final(self)@.ok(),
            final(self).pairs_of() == old(self).pairs_of(),
    {
        self.seal_last_line();
        self.seps.push(self.pending.clone());
        self.pending = Ir::HardLine;
        self.lines.push(content);
    }

    /// The separator before the next line.
    pub fn set_pending(&mut self, sep: Ir)
        requires
            old(self)@.ok(),
        ensures
            final(self)@ == old(self)@.with_pending(sep@),
            final(self)@.ok(),
            final(self).pairs_of() == old(self).pairs_of(),
    {
        self.pending = sep;
    }

    /// Sets the next line apart.
    pub fn separate_section(&mut self)
        requires
            old(self)@.ok(),
        ensures
            final(self)@ == old(self)@.section_apart(),
            final(self)@.ok(),
            final(self).pairs_of() == old(self).pairs_of(),
    {
        self.pending = if self.margin {
            Ir::concat3(Ir::HardLine, Ir::column_zero("%"), Ir::HardLine)
        } else {
            Ir::EmptyLine
        };
    }

    /// Adds a block whose lines have margins of their own, all but the first.
    pub fn push_margined_block(&mut self, ir: Ir)
        requires
            old(self)@.ok(),
        ensures
            final(self)@ == old(self)@.with_margined_block(ir@),
            final(self)@.ok(),
            final(self).pairs_of() == old(self).pairs_of(),
    {
        self.push_segment(Ir::concat2(Ir::column_zero("% "), ir));
    }

    /// Puts a comment on the end of the line in progress.
    pub fn append_trailing_comment(&mut self, text: &str)
        requires
            old(self)@.ok(),
        ensures
            final(self)@ == old(self)@.with_comment(text@),
            final(self)@.ok(),
            final(self).pairs_of() == old(self).pairs_of(),
    {
        let n: usize = self.run.len();
        if !self.atom.is_empty() || n == 0 {
            self.push_atom_piece(Ir::verbatim(text), text);
            return;
        }
        let ghost before = self@;
        let ghost run = self.run@;
        match self.run.pop() {
            Some(last) => {
                let mut grown = last.text.clone();
                grown.append(" ");
                grown.append(text);
                proof {
                    reveal_strlit(" ");
                    assert(grown@ =~= last.text@.push(' ') + text@);
                }
                self.run.push(
                    RunAtom {
                        ir: Ir::concat3(last.ir.clone(), Ir::space(), Ir::verbatim(text)),
                        text: grown,
                        citation: last.citation,
                        broken_before: last.broken_before,
                    },
                );
                proof {
                    assert(last@ == before.run.last());
                    assert(atoms(self.run@) =~= before.run.drop_last().push(self.run@.last()@));
                    assert forall|k: int| 0 <= k < self@.run.len() implies ((#[trigger] self@.run[k]).citation matches Some(
                        suffix,
                    ) ==> suffix.start <= self@.run[k].text.len()) by {
                        assert(self@.run[k].citation == before.run[k].citation);
                        assert(before.run[k].text.len() <= self@.run[k].text.len());
                    }
                }
            },
            None => {},
        }
    }

    /// Puts a piece on the end of the last finished line.
    pub fn append_to_last_line(&mut self, ir: Ir)
        requires
            old(self)@.ok(),
        ensures
            final(self)@ == old(self)@.riding(ir@),
            final(self)@.ok(),
            final(self).pairs_of() == old(self).pairs_of(),
    {
        if !self.lines.is_empty() {
            self.tail.push(ir);
        }
    }

    /// The layouts of the atoms of the run.
    fn run_layouts(&self) -> (r: IrList)
        ensures
            r@ == atom_layouts(atoms(self.run@)),
    {
        let mut out = IrList::new();
        let mut i: usize = 0;
        while i < self.run.len()
            invariant
                i <= self.run@.len(),
                out@ == atom_layouts(atoms(self.run@)).take(i as int),
            decreases self.run@.len() - i,
        {
            out.push(self.run[i].ir.clone());
            assert(atom_layouts(atoms(self.run@)).take(i + 1) =~= atom_layouts(atoms(self.run@)).take(i as int).push(
                atom_layouts(atoms(self.run@))[i as int],
            ));
            i = i + 1;
        }
        assert(atom_layouts(atoms(self.run@)).take(self.run@.len() as int) =~= atom_layouts(atoms(self.run@)));
        out
    }

    fn render_run(&self) -> (r: Ir)
        requires
            self@.ok(),
        ensures
            r@ == rendered(self@.run, self@.render, self.pairs_of()),
    {
        match self.render {
            RunRender::Fill => Ir::fill(self.run_layouts()),
            RunRender::Stable { target } => {
                let mut preferred: Vec<bool> = Vec::new();
                let mut i: usize = 1;
                while i < self.run.len()
                    invariant
                        1 <= i,
                        i == 1 || i <= self.run@.len(),
                        preferred@.len() == i - 1,
                        forall|k: int| 0 <= k < i - 1 ==> (#[trigger] preferred@[k]) == self.run@[k + 1].broken_before,
                    decreases self.run@.len() - i,
                {
                    preferred.push(self.run[i].broken_before);
                    i = i + 1;
                }
                proof {
                    assert(self@.run.len() == self.run@.len());
                    assert(preferred@.len() == breaks_of(self@.run).len());
                    assert forall|k: int| 0 <= k < preferred@.len() implies preferred@[k] == breaks_of(self@.run)[k] by {
                        assert(self@.run[k + 1] == self.run@[k + 1]@);
                    }
                    assert(preferred@ =~= breaks_of(self@.run));
                }
                Ir::preferred_fill(self.run_layouts(), preferred, target)
            },
            RunRender::Sentence => {
                assert forall|k: int| 0 <= k < self.run@.len() implies ((#[trigger] self.run@[k]).citation matches Some(suffix)
                    ==> suffix.start <= self.run@[k].text@.len()) by {
                    assert(self@.run[k] == self.run@[k]@);
                }
                render_sentences(&self.run, self.pairs)
            },
        }
    }

    /// Finishes the line in progress.
    pub fn end_line(&mut self)
        requires
            old(self)@.ok(),
        ensures
            final(self)@ == old(self)@.ended(old(self).pairs_of()),
            final(self)@.ok(),
            final(self).pairs_of() == old(self).pairs_of(),
    {
        self.flush_atom();
        if self.run.len() == 0 {
            return;
        }
        let body = self.render_run();
        self.run = Vec::new();
        assert(atoms(self.run@) =~= Seq::<Atom>::empty());
        let segment = if self.margin {
            Ir::margin_prefix("% ", body)
        } else {
            body
        };
        self.push_segment(segment);
    }

    /// Finishes the line in progress, with an atom that spans lines at its end.
    pub fn end_hug_line(&mut self)
        requires
            old(self)@.ok(),
        ensures
            final(self)@ == old(self)@.hugged(),
            final(self)@.ok(),
            final(self).pairs_of() == old(self).pairs_of(),
    {
        self.flush_atom();
        if self.run.len() == 0 {
            return;
        }
        let parts = self.run_layouts();
        let body = if parts.len() == 1 {
            parts.at(0)
        } else {
            Ir::hug_fill(IrList::interleaved(Ir::Line, parts))
        };
        self.run = Vec::new();
        assert(atoms(self.run@) =~= Seq::<Atom>::empty());
        let segment = if self.margin {
            Ir::margin_prefix("% ", body)
        } else {
            body
        };
        self.push_segment(segment);
    }

    /// Finishes the paragraph.
    pub fn finish(self) -> (r: Ir)
        requires
            self@.ok(),
        ensures
            r@ == self@.finished(self.pairs_of()),
    {
        let mut b = self;
        b.end_line();
        b.seal_last_line();
        join_lines(&b.lines, &b.seps)
    }
}

/// Lines with the separators between them.
pub fn join_lines(lines: &IrList, seps: &IrList) -> (r: Ir)
    requires
        seps@.len() == lines@.len(),
    ensures
        r@ == concat(joined(lines@, seps@)),
{
    let mut result = IrList::new();
    let mut i: usize = 0;
    while i < lines.len()
        invariant
            i <= lines@.len(),
            seps@.len() == lines@.len(),
            result@ == joined(lines@.take(i as int), seps@),
        decreases lines@.len() - i,
    {
        let ghost before = lines@.take(i as int);
        let ghost now = lines@.take(i + 1);
        assert(now.drop_last() =~= before);
        if i > 0 {
            result.push(seps.at(i));
        }
        result.push(lines.at(i));
        assert(result@ =~= joined(now, seps@));
        i = i + 1;
    }
    assert(lines@.take(lines@.len() as int) =~= lines@);
    Ir::concat(result)
}

/// A piece with the space that stands before it, where there is one.
pub fn ride_after_block(ir: Ir, gap: bool) -> (r: Ir)
    ensures
        r@ == spaced(ir@, gap),
{
    if gap {
        Ir::concat2(Ir::space(), ir)
    } else {
        ir
    }
}

} // verus!

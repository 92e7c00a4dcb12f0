//! The logical lines of expl3 code.
//!
//! A line is a row of atoms with a separator between neighbours. The atoms of a call break one
//! after the other once one of them has broken; those of other code are packed.

use vstd::prelude::*;

use crate::ir::{concat, concat2, concat3, group, if_break, indent, space, verbatim, Ir, IrList, Layout};
use crate::lines::{join_lines, joined};

verus! {

/// Code as far as it has been put on lines.
#[verifier::ext_equal]
pub struct Code {
    pub lines: Seq<Layout>,
    /// What stands before each line.
    pub seps: Seq<Layout>,
    /// What stands before the next line.
    pub pending: Layout,
    /// The pieces of the atom that is being read.
    pub atom: Seq<Layout>,
    /// The atoms of the line that is being read, with separators between them.
    pub parts: Seq<Layout>,
    /// What stands before the next atom.
    pub sep: Option<Layout>,
    /// A block is directly before.
    pub after_block: bool,
    /// The line is a call.
    pub sticky: bool,
}

/// A line of atoms and separators.
pub open spec fn filled(parts: Seq<Layout>, sticky: bool) -> Layout {
    if parts.len() == 1 {
        parts[0]
    } else if sticky {
        Layout::StickyFill(parts)
    } else {
        Layout::HugFill(parts)
    }
}

pub open spec fn or_line(sep: Option<Layout>) -> Layout {
    match sep {
        Some(sep) => sep,
        None => Layout::Line,
    }
}

pub open spec fn hug_group(body: Layout) -> Layout {
    Layout::HugGroup(Box::new(body))
}

/// The parts of a group with a body.
pub struct Braces {
    pub open: Layout,
    pub body: Layout,
    pub close: Layout,
    pub spaced: bool,
}

impl Braces {
    /// The group on one line.
    pub open spec fn inline(self) -> Seq<Layout> {
        let gap = if self.spaced {
            space()
        } else {
            Layout::Nil
        };
        seq![self.open, gap, self.body, gap, self.close]
    }

    /// A head with the group behind it: on its line, on a line of its own, or on several.
    pub open spec fn behind(self, head: Layout, sep: Layout) -> Layout {
        Layout::Candidates(
            seq![
                concat(seq![head, sep] + self.inline()),
                concat2(head, indent(concat(seq![Layout::HardLine] + self.inline()))),
                concat2(
                    head,
                    indent(
                        concat(
                            seq![
                                Layout::HardLine,
                                self.open,
                                indent(concat2(Layout::HardLine, self.body)),
                                Layout::HardLine,
                                self.close,
                            ],
                        ),
                    ),
                ),
            ],
        )
    }
}

impl Code {
    pub open spec fn start() -> Code {
        Code {
            lines: Seq::empty(),
            seps: Seq::empty(),
            pending: Layout::HardLine,
            atom: Seq::empty(),
            parts: Seq::empty(),
            sep: None,
            after_block: false,
            sticky: true,
        }
    }

    /// Nothing of a line has been read.
    pub open spec fn at_start(self) -> bool {
        self.parts.len() == 0 && self.atom.len() == 0
    }

    pub open spec fn ok(self) -> bool {
        self.lines.len() == self.seps.len() && (self.after_block ==> self.lines.len() > 0)
    }

    /// The atom is complete.
    #[verifier::opaque]
    pub open spec fn flushed(self) -> Code {
        if self.atom.len() == 0 {
            self
        } else {
            Code {
                parts: (if self.parts.len() > 0 {
                    self.parts.push(or_line(self.sep))
                } else {
                    self.parts
                }).push(concat(self.atom)),
                atom: Seq::empty(),
                sep: None,
                ..self
            }
        }
    }

    /// A line that is laid out already.
    #[verifier::opaque]
    pub open spec fn with_line(self, l: Layout) -> Code {
        Code {
            lines: self.lines.push(l),
            seps: self.seps.push(self.pending),
            pending: Layout::HardLine,
            ..self
        }
    }

    /// The line is complete.
    #[verifier::opaque]
    pub open spec fn committed(self) -> Code {
        let s = self.flushed();
        let t = if s.parts.len() > 0 {
            s.with_line(filled(s.parts, s.sticky))
        } else {
            s
        };
        Code { parts: Seq::empty(), sep: None, sticky: true, ..t }
    }

    pub open spec fn packed(self) -> Code {
        Code { sticky: false, ..self }
    }

    pub open spec fn past_block(self) -> Code {
        Code { after_block: false, ..self }
    }

    /// White space at which a statement ends.
    #[verifier::opaque]
    pub open spec fn with_boundary(self, newlines: int) -> Code {
        let s = self.past_block().committed();
        if newlines >= 2 {
            Code { pending: Layout::EmptyLine, ..s }
        } else {
            s
        }
    }

    /// White space in a statement.
    #[verifier::opaque]
    pub open spec fn with_gap(self, newlines: int, glue: bool) -> Code {
        let s = Code { after_block: self.after_block && newlines < 1, ..self }.flushed();
        Code {
            sep: Some(
                match s.sep {
                    Some(sep) => sep,
                    None => if glue {
                        space()
                    } else {
                        Layout::Line
                    },
                },
            ),
            ..s
        }
    }

    /// A tie: a space that is written.
    #[verifier::opaque]
    pub open spec fn with_tie(self, text: Seq<char>, glued: bool) -> Code {
        let s = Code { atom: self.atom.push(verbatim(text)), after_block: false, ..self }.flushed();
        Code {
            sep: Some(
                if glued {
                    Layout::Nil
                } else {
                    Layout::SoftLine
                },
            ),
            ..s
        }
    }

    /// A comment. It ends its line.
    #[verifier::opaque]
    pub open spec fn with_comment(self, text: Seq<char>) -> Code {
        if self.after_block {
            let block = self.lines.last();
            Code {
                lines: self.lines.drop_last().push(
                    if self.sep is Some {
                        concat3(block, space(), verbatim(text))
                    } else {
                        concat2(block, verbatim(text))
                    },
                ),
                sep: None,
                after_block: false,
                ..self
            }
        } else if self.at_start() {
            Code { atom: self.atom.push(verbatim(text)), ..self }.committed()
        } else {
            let s = self.committed();
            Code {
                lines: s.lines.drop_last().push(
                    concat2(
                        s.lines.last(),
                        Layout::ZeroWidth(
                            if self.atom.len() == 0 {
                                seq![' '] + text
                            } else {
                                text
                            },
                        ),
                    ),
                ),
                ..s
            }
        }
    }

    /// A guard. It starts a line.
    #[verifier::opaque]
    pub open spec fn with_guard(self, l: Layout) -> Code {
        let s = self.past_block().committed();
        Code { atom: s.atom.push(l), ..s }
    }

    pub open spec fn with_piece(self, l: Layout) -> Code {
        Code { atom: self.atom.push(l), after_block: false, ..self }
    }

    /// Comments on lines of their own before a command, and the rest of the command.
    pub open spec fn with_comment_lines(self, docs: Seq<Layout>, k: int) -> Code
        decreases k,
    {
        if k <= 0 || k > docs.len() {
            self.past_block().committed()
        } else {
            self.with_comment_lines(docs, k - 1).with_line(docs[k - 1])
        }
    }

    /// A space between a call and its argument.
    #[verifier::opaque]
    pub open spec fn with_argument_gap(self) -> Code {
        Code { sep: Some(Layout::Line), ..self.flushed() }
    }

    /// A block that is laid out already.
    #[verifier::opaque]
    pub open spec fn with_block(self, l: Layout) -> Code {
        Code { after_block: true, ..self.with_line(l) }
    }

    /// What the line holds goes before a block on the same line.
    pub open spec fn headed(self) -> Code {
        Code { parts: Seq::empty(), sep: None, ..self.flushed() }
    }

    /// A conditional behind something else: on its line where all of it fits, else below.
    #[verifier::opaque]
    pub open spec fn with_trailing_conditional(self, flat: Layout, exploded: Layout) -> Code {
        let sep = if self.atom.len() == 0 {
            or_line(self.sep)
        } else {
            Layout::Nil
        };
        let s = self.flushed();
        let head = filled(s.parts, true);
        self.headed().with_block(
            group(if_break(concat3(head, sep, flat), concat3(head, Layout::HardLine, exploded))),
        )
    }

    /// A group behind a call.
    #[verifier::opaque]
    pub open spec fn with_trailing_group(self, braces: Braces) -> Code {
        self.headed().with_block(braces.behind(filled(self.parts, true), or_line(self.sep)))
    }

    /// A command behind a call, with arguments of its own.
    #[verifier::opaque]
    pub open spec fn with_trailing_command(self, l: Layout) -> Code {
        let sep = if self.sep == Some(Layout::SoftLine) || self.sep == Some(Layout::Nil) {
            Layout::Nil
        } else {
            space()
        };
        self.headed().with_block(concat3(filled(self.parts, self.sticky), sep, l))
    }

    /// A group on lines of its own, one step deeper than its call.
    #[verifier::opaque]
    pub open spec fn with_hanging_block(self, l: Layout) -> Code {
        let s = self.committed();
        if s.lines.len() > 0 {
            Code {
                lines: s.lines.push(indent(concat2(s.pending, l))),
                seps: s.seps.push(Layout::Nil),
                pending: Layout::HardLine,
                after_block: true,
                ..s
            }
        } else {
            s.with_block(l)
        }
    }

    /// A piece that spans lines.
    #[verifier::opaque]
    pub open spec fn with_forced(self, l: Layout, hang: bool) -> Code {
        if self.atom.len() > 0 {
            Code { after_block: true, ..Code { atom: self.atom.push(l), ..self }.committed() }
        } else if hang {
            self.with_hanging_block(l)
        } else if self.parts.len() > 0 {
            self.headed().with_block(hug_group(concat3(filled(self.parts, self.sticky), or_line(self.sep), l)))
        } else {
            self.committed().with_block(l)
        }
    }

    /// A piece that does not. A group starts one step deeper where its line is broken.
    #[verifier::opaque]
    pub open spec fn with_soft(self, l: Layout, hang: bool) -> Code {
        if hang && self.parts.len() == 0 && self.lines.len() > 0 {
            Code { pending: Layout::Nil, atom: self.atom.push(indent(concat2(self.pending, l))), ..self }
        } else if hang && self.parts.len() > 0 {
            Code { sep: Some(Layout::Nil), atom: self.atom.push(indent(concat2(Layout::Line, l))), ..self }
        } else {
            Code { atom: self.atom.push(l), ..self }
        }
    }

    /// The code on its lines.
    pub open spec fn finished(self) -> Layout {
        let s = self.committed();
        concat(joined(s.lines, s.seps))
    }
}

// ---- the builder ---------------------------------------------------------------------------

pub struct CodeBuilder {
    lines: IrList,
    seps: IrList,
    pending: Ir,
    atom: IrList,
    parts: IrList,
    sep: Option<Ir>,
    after_block: bool,
    sticky: bool,
}

pub open spec fn layout_of(ir: Option<Ir>) -> Option<Layout> {
    match ir {
        Some(ir) => Some(ir@),
        None => None,
    }
}

fn sep_or_line(sep: Option<Ir>) -> (r: Ir)
    ensures
        r@ == or_line(layout_of(sep)),
{
    match sep {
        Some(sep) => sep,
        None => Ir::Line,
    }
}

fn line_fill(parts: IrList, sticky: bool) -> (r: Ir)
    ensures
        r@ == filled(parts@, sticky),
{
    if parts.len() == 1 {
        parts.at(0)
    } else if sticky {
        Ir::sticky_fill(parts)
    } else {
        Ir::hug_fill(parts)
    }
}

/// The parts of a group with a body.
pub struct BraceParts {
    pub open: Ir,
    pub body: Ir,
    pub close: Ir,
    pub spaced: bool,
}

impl BraceParts {
    pub open spec fn v(&self) -> Braces {
        Braces { open: self.open@, body: self.body@, close: self.close@, spaced: self.spaced }
    }

    fn inline(&self, first: IrList) -> (r: IrList)
        ensures
            r@ == first@ + self.v().inline(),
    {
        let ghost before = first@;
        let mut out = first;
        out.push(self.open.clone());
        out.push(
            if self.spaced {
                Ir::space()
            } else {
                Ir::Nil
            },
        );
        out.push(self.body.clone());
        out.push(
            if self.spaced {
                Ir::space()
            } else {
                Ir::Nil
            },
        );
        out.push(self.close.clone());
        assert(out@ =~= before + self.v().inline());
        out
    }

    fn on_lines(&self) -> (r: Ir)
        ensures
            r@ == concat(
                seq![
                    Layout::HardLine,
                    self.open@,
                    indent(concat2(Layout::HardLine, self.body@)),
                    Layout::HardLine,
                    self.close@,
                ],
            ),
    {
        let inner = Ir::indent(Ir::concat2(Ir::HardLine, self.body.clone()));
        let ghost all = seq![Layout::HardLine, self.open@, inner@, Layout::HardLine, self.close@];
        let mut out = IrList::new();
        out.push(Ir::HardLine);
        out.push(self.open.clone());
        out.push(inner);
        out.push(Ir::HardLine);
        out.push(self.close.clone());
        assert(out@ =~= all);
        Ir::concat(out)
    }

    fn behind(self, head: Ir, sep: Ir) -> (r: Ir)
        ensures
            r@ == self.v().behind(head@, sep@),
    {
        let ghost want = self.v().behind(head@, sep@);
        let mut first = IrList::new();
        first.push(head.clone());
        let ghost sep_l = sep@;
        first.push(sep);
        assert(first@ =~= seq![head@, sep_l]);
        let flat = Ir::concat(self.inline(first));
        let mut second = IrList::new();
        second.push(Ir::HardLine);
        assert(second@ =~= seq![Layout::HardLine]);
        let inline = Ir::concat2(head.clone(), Ir::indent(Ir::concat(self.inline(second))));
        let broken = Ir::concat2(head, Ir::indent(self.on_lines()));
        let ghost all = seq![flat@, inline@, broken@];
        let mut forms = IrList::new();
        forms.push(flat);
        forms.push(inline);
        forms.push(broken);
        assert(forms@ =~= all);
        Ir::candidates(forms)
    }
}

impl CodeBuilder {
    pub closed spec fn v(&self) -> Code {
        Code {
            lines: self.lines@,
            seps: self.seps@,
            pending: self.pending@,
            atom: self.atom@,
            parts: self.parts@,
            sep: layout_of(self.sep),
            after_block: self.after_block,
            sticky: self.sticky,
        }
    }

    pub fn new() -> (r: CodeBuilder)
        ensures
            r.v() == Code::start(),
            r.v().ok(),
    {
        CodeBuilder {
            lines: IrList::new(),
            seps: IrList::new(),
            pending: Ir::HardLine,
            atom: IrList::new(),
            parts: IrList::new(),
            sep: None,
            after_block: false,
            sticky: true,
        }
    }

    pub fn atom_is_empty(&self) -> (r: bool)
        ensures
            r == (self.v().atom.len() == 0),
    {
        self.atom.is_empty()
    }

    pub fn parts_are_empty(&self) -> (r: bool)
        ensures
            r == (self.v().parts.len() == 0),
    {
        self.parts.is_empty()
    }

    fn flush_atom(self) -> (r: CodeBuilder)
        requires
            self.v().ok(),
        ensures
            r.v() == self.v().flushed(),
            r.v().ok(),
            r.v().lines == self.v().lines,
    {
        proof {
            reveal(Code::flushed);
        }
        if self.atom.is_empty() {
            return self;
        }
        let mut parts = self.parts;
        if !parts.is_empty() {
            parts.push(sep_or_line(self.sep));
        }
        parts.push(Ir::concat(self.atom));
        CodeBuilder {
            lines: self.lines,
            seps: self.seps,
            pending: self.pending,
            atom: IrList::new(),
            parts,
            sep: None,
            after_block: self.after_block,
            sticky: self.sticky,
        }
    }

    pub fn with_line(self, ir: Ir) -> (r: CodeBuilder)
        requires
            self.v().ok(),
        ensures
            r.v() == self.v().with_line(ir@),
            r.v().ok(),
            r.v().lines.len() > 0,
    {
        proof {
            reveal(Code::with_line);
        }
        let mut lines = self.lines;
        let mut seps = self.seps;
        seps.push(self.pending);
        lines.push(ir);
        CodeBuilder {
            lines,
            seps,
            pending: Ir::HardLine,
            atom: self.atom,
            parts: self.parts,
            sep: self.sep,
            after_block: self.after_block,
            sticky: self.sticky,
        }
    }

    pub fn commit_line(self) -> (r: CodeBuilder)
        requires
            self.v().ok(),
        ensures
            r.v() == self.v().committed(),
            r.v().ok(),
            !self.v().at_start() ==> r.v().lines.len() > 0,
    {
        proof {
            reveal(Code::committed);
            reveal(Code::flushed);
            reveal(Code::with_line);
        }
        let s = self.flush_atom();
        let mut lines = s.lines;
        let mut seps = s.seps;
        let mut pending = s.pending;
        if !s.parts.is_empty() {
            seps.push(pending);
            pending = Ir::HardLine;
            lines.push(line_fill(s.parts, s.sticky));
        }
        CodeBuilder {
            lines,
            seps,
            pending,
            atom: s.atom,
            parts: IrList::new(),
            sep: None,
            after_block: s.after_block,
            sticky: true,
        }
    }

    pub fn packed(self) -> (r: CodeBuilder)
        requires
            self.v().ok(),
        ensures
            r.v() == self.v().packed(),
            r.v().ok(),
    {
        CodeBuilder { sticky: false, ..self }
    }

    pub fn past_block(self) -> (r: CodeBuilder)
        requires
            self.v().ok(),
        ensures
            r.v() == self.v().past_block(),
            r.v().ok(),
    {
        CodeBuilder { after_block: false, ..self }
    }

    pub fn with_boundary(self, newlines: usize) -> (r: CodeBuilder)
        requires
            self.v().ok(),
        ensures
            r.v() == self.v().with_boundary(newlines as int),
            r.v().ok(),
    {
        proof {
            reveal(Code::with_boundary);
        }
        let s = self.past_block().commit_line();
        if newlines >= 2 {
            CodeBuilder { pending: Ir::EmptyLine, ..s }
        } else {
            s
        }
    }

    pub fn with_gap(self, newlines: usize, glue: bool) -> (r: CodeBuilder)
        requires
            self.v().ok(),
        ensures
            r.v() == self.v().with_gap(newlines as int, glue),
            r.v().ok(),
    {
        proof {
            reveal(Code::with_gap);
        }
        let after_block = self.after_block && newlines < 1;
        let s = CodeBuilder { after_block, ..self }.flush_atom();
        let sep = match s.sep {
            Some(sep) => sep,
            None => if glue {
                Ir::space()
            } else {
                Ir::Line
            },
        };
        CodeBuilder {
            lines: s.lines,
            seps: s.seps,
            pending: s.pending,
            atom: s.atom,
            parts: s.parts,
            sep: Some(sep),
            after_block: s.after_block,
            sticky: s.sticky,
        }
    }

    pub fn with_tie(self, text: &str, glued: bool) -> (r: CodeBuilder)
        requires
            self.v().ok(),
        ensures
            r.v() == self.v().with_tie(text@, glued),
            r.v().ok(),
    {
        proof {
            reveal(Code::with_tie);
        }
        let s = self.with_piece(Ir::verbatim(text)).flush_atom();
        let sep = if glued {
            Ir::Nil
        } else {
            Ir::SoftLine
        };
        CodeBuilder { sep: Some(sep), ..s }
    }

    pub fn with_piece(self, ir: Ir) -> (r: CodeBuilder)
        requires
            self.v().ok(),
        ensures
            r.v() == self.v().with_piece(ir@),
            r.v().ok(),
    {
        let mut atom = self.atom;
        atom.push(ir);
        CodeBuilder {
            lines: self.lines,
            seps: self.seps,
            pending: self.pending,
            atom,
            parts: self.parts,
            sep: self.sep,
            after_block: false,
            sticky: self.sticky,
        }
    }

    fn with_comment_behind_block(self, text: &str) -> (r: CodeBuilder)
        requires
            self.v().ok(),
            self.v().after_block,
        ensures
            r.v() == self.v().with_comment(text@),
            r.v().ok(),
    {
        proof {
            reveal(Code::with_comment);
        }
        let mut lines = self.lines;
        let block = lines.pop();
        let line = if self.sep.is_some() {
            Ir::concat3(block, Ir::space(), Ir::verbatim(text))
        } else {
            Ir::concat2(block, Ir::verbatim(text))
        };
        lines.push(line);
        CodeBuilder {
            lines,
            seps: self.seps,
            pending: self.pending,
            atom: self.atom,
            parts: self.parts,
            sep: None,
            after_block: false,
            sticky: self.sticky,
        }
    }

    pub fn with_comment(self, text: &str) -> (r: CodeBuilder)
        requires
            self.v().ok(),
        ensures
            r.v() == self.v().with_comment(text@),
            r.v().ok(),
    {
        if self.after_block {
            return self.with_comment_behind_block(text);
        }
        proof {
            reveal(Code::with_comment);
        }
        if self.atom.is_empty() && self.parts.is_empty() {
            return self.with_piece(Ir::verbatim(text)).commit_line();
        }
        let spaced = self.atom.is_empty();
        let s = self.commit_line();
        let mut lines = s.lines;
        let line = lines.pop();
        let comment = if spaced {
            proof {
                reveal_strlit(" ");
                assert(" "@ =~= seq![' ']);
            }
            let mut padded = String::new();
            padded.append(" ");
            padded.append(text);
            assert(padded@ =~= seq![' '] + text@);
            Ir::ZeroWidth(padded)
        } else {
            Ir::zero_width(text)
        };
        lines.push(Ir::concat2(line, comment));
        CodeBuilder {
            lines,
            seps: s.seps,
            pending: s.pending,
            atom: s.atom,
            parts: s.parts,
            sep: s.sep,
            after_block: s.after_block,
            sticky: s.sticky,
        }
    }

    pub fn with_guard(self, ir: Ir) -> (r: CodeBuilder)
        requires
            self.v().ok(),
        ensures
            r.v() == self.v().with_guard(ir@),
            r.v().ok(),
    {
        proof {
            reveal(Code::with_guard);
            reveal(Code::committed);
            reveal(Code::flushed);
            reveal(Code::with_line);
        }
        self.past_block().commit_line().with_piece(ir)
    }

    pub fn with_comment_lines(self, docs: &IrList) -> (r: CodeBuilder)
        requires
            self.v().ok(),
        ensures
            r.v() == self.v().with_comment_lines(docs@, docs@.len() as int),
            r.v().ok(),
    {
        let ghost first = self.v();
        let mut s = self.past_block().commit_line();
        let mut k: usize = 0;
        while k < docs.len()
            invariant
                k <= docs@.len(),
                s.v().ok(),
                s.v() == first.with_comment_lines(docs@, k as int),
            decreases docs@.len() - k,
        {
            s = s.with_line(docs.at(k));
            k = k + 1;
        }
        s
    }

    pub fn with_argument_gap(self) -> (r: CodeBuilder)
        requires
            self.v().ok(),
        ensures
            r.v() == self.v().with_argument_gap(),
            r.v().ok(),
    {
        proof {
            reveal(Code::with_argument_gap);
        }
        let s = self.flush_atom();
        CodeBuilder { sep: Some(Ir::Line), ..s }
    }

    pub fn with_block(self, ir: Ir) -> (r: CodeBuilder)
        requires
            self.v().ok(),
        ensures
            r.v() == self.v().with_block(ir@),
            r.v().ok(),
    {
        proof {
            reveal(Code::with_block);
        }
        let s = self.with_line(ir);
        CodeBuilder { after_block: true, ..s }
    }

    pub fn with_trailing_conditional(self, flat: Ir, exploded: Ir) -> (r: CodeBuilder)
        requires
            self.v().ok(),
        ensures
            r.v() == self.v().with_trailing_conditional(flat@, exploded@),
            r.v().ok(),
    {
        proof {
            reveal(Code::with_trailing_conditional);
            reveal(Code::flushed);
        }
        let (sep, s) = if self.atom.is_empty() {
            let sep = match &self.sep {
                Some(sep) => sep.clone(),
                None => Ir::Line,
            };
            (sep, self)
        } else {
            (Ir::Nil, self.flush_atom())
        };
        let head = line_fill(s.parts, true);
        let flat = Ir::concat3(head.clone(), sep, flat);
        let broken = Ir::concat3(head, Ir::HardLine, exploded);
        let bare = CodeBuilder {
            lines: s.lines,
            seps: s.seps,
            pending: s.pending,
            atom: s.atom,
            parts: IrList::new(),
            sep: None,
            after_block: s.after_block,
            sticky: s.sticky,
        };
        bare.with_block(Ir::group(Ir::if_break(flat, broken)))
    }

    pub fn with_trailing_group(self, braces: BraceParts) -> (r: CodeBuilder)
        requires
            self.v().ok(),
            self.v().atom.len() == 0,
        ensures
            r.v() == self.v().with_trailing_group(braces.v()),
            r.v().ok(),
    {
        proof {
            reveal(Code::with_trailing_group);
            reveal(Code::flushed);
        }
        let head = line_fill(self.parts, true);
        let sep = sep_or_line(self.sep);
        let bare = CodeBuilder {
            lines: self.lines,
            seps: self.seps,
            pending: self.pending,
            atom: self.atom,
            parts: IrList::new(),
            sep: None,
            after_block: self.after_block,
            sticky: self.sticky,
        };
        bare.with_block(braces.behind(head, sep))
    }

    pub fn with_trailing_command(self, ir: Ir) -> (r: CodeBuilder)
        requires
            self.v().ok(),
            self.v().atom.len() == 0,
        ensures
            r.v() == self.v().with_trailing_command(ir@),
            r.v().ok(),
    {
        proof {
            reveal(Code::with_trailing_command);
            reveal(Code::flushed);
        }
        let head = line_fill(self.parts, self.sticky);
        let sep = match &self.sep {
            Some(Ir::SoftLine) => Ir::Nil,
            Some(Ir::Nil) => Ir::Nil,
            _ => Ir::space(),
        };
        let bare = CodeBuilder {
            lines: self.lines,
            seps: self.seps,
            pending: self.pending,
            atom: self.atom,
            parts: IrList::new(),
            sep: None,
            after_block: self.after_block,
            sticky: self.sticky,
        };
        bare.with_block(Ir::concat3(head, sep, ir))
    }

    fn with_hanging_block(self, ir: Ir) -> (r: CodeBuilder)
        requires
            self.v().ok(),
        ensures
            r.v() == self.v().with_hanging_block(ir@),
            r.v().ok(),
    {
        proof {
            reveal(Code::with_hanging_block);
        }
        let s = self.commit_line();
        if s.lines.is_empty() {
            return s.with_block(ir);
        }
        let mut lines = s.lines;
        let mut seps = s.seps;
        seps.push(Ir::Nil);
        lines.push(Ir::indent(Ir::concat2(s.pending, ir)));
        CodeBuilder {
            lines,
            seps,
            pending: Ir::HardLine,
            atom: s.atom,
            parts: s.parts,
            sep: s.sep,
            after_block: true,
            sticky: s.sticky,
        }
    }

    fn with_hugged_block(self, ir: Ir) -> (r: CodeBuilder)
        requires
            self.v().ok(),
            self.v().atom.len() == 0,
        ensures
            r.v() == self.v().headed().with_block(
                hug_group(concat3(filled(self.v().parts, self.v().sticky), or_line(self.v().sep), ir@)),
            ),
            r.v().ok(),
    {
        proof {
            reveal(Code::flushed);
        }
        let head = line_fill(self.parts, self.sticky);
        let sep = sep_or_line(self.sep);
        let bare = CodeBuilder {
            lines: self.lines,
            seps: self.seps,
            pending: self.pending,
            atom: self.atom,
            parts: IrList::new(),
            sep: None,
            after_block: self.after_block,
            sticky: self.sticky,
        };
        bare.with_block(Ir::hug_group(Ir::concat3(head, sep, ir)))
    }

    pub fn with_forced(self, ir: Ir, hang: bool) -> (r: CodeBuilder)
        requires
            self.v().ok(),
            !self.v().after_block,
        ensures
            r.v() == self.v().with_forced(ir@, hang),
            r.v().ok(),
    {
        proof {
            reveal(Code::with_forced);
        }
        if !self.atom.is_empty() {
            let s = self.with_piece(ir).commit_line();
            CodeBuilder { after_block: true, ..s }
        } else if hang {
            self.with_hanging_block(ir)
        } else if !self.parts.is_empty() {
            self.with_hugged_block(ir)
        } else {
            self.commit_line().with_block(ir)
        }
    }

    pub fn with_soft(self, ir: Ir, hang: bool) -> (r: CodeBuilder)
        requires
            self.v().ok(),
        ensures
            r.v() == self.v().with_soft(ir@, hang),
            r.v().ok(),
    {
        proof {
            reveal(Code::with_soft);
        }
        let mut atom = self.atom;
        if hang && self.parts.is_empty() && !self.lines.is_empty() {
            atom.push(Ir::indent(Ir::concat2(self.pending, ir)));
            CodeBuilder {
                lines: self.lines,
                seps: self.seps,
                pending: Ir::Nil,
                atom,
                parts: self.parts,
                sep: self.sep,
                after_block: self.after_block,
                sticky: self.sticky,
            }
        } else {
            let wide = hang && !self.parts.is_empty();
            let sep = if wide {
                Some(Ir::Nil)
            } else {
                self.sep
            };
            atom.push(
                if wide {
                    Ir::indent(Ir::concat2(Ir::Line, ir))
                } else {
                    ir
                },
            );
            CodeBuilder {
                lines: self.lines,
                seps: self.seps,
                pending: self.pending,
                atom,
                parts: self.parts,
                sep,
                after_block: self.after_block,
                sticky: self.sticky,
            }
        }
    }

    pub fn finish(self) -> (r: Ir)
        requires
            self.v().ok(),
        ensures
            r@ == self.v().finished(),
    {
        let s = self.commit_line();
        join_lines(&s.lines, &s.seps)
    }
}

} // verus!

//! The white space between two neighbouring elements.
//!
//! The formatter turns a line break into a space and a space into a line break. A layout that
//! told the two apart would not be stable, so [`Gap`] does not: only a step whose purpose is to
//! keep the author's lines reads how many line breaks there were, through [`WideGap`].

use vstd::prelude::*;

use crate::context::{gap_at, in_tree, tok_at, LowerCtx};
use crate::ir::{concat, space, verbatim, Ir, IrList, Layout};
use crate::syntax::{SyntaxKind, Tree};

verus! {

/// What the layout may know of a gap.
#[derive(Debug, PartialEq, Eq)]
pub enum Gap {
    /// The neighbours touch.
    Glued,
    /// White space without an empty line, written as `flat` where the line goes on.
    Space { flat: String },
    /// White space with an empty line.
    Blank,
    /// The gap ends in a comment.
    Comment,
}

/// The mathematical content of a [`Gap`].
pub enum Trivia {
    Glued,
    Space(Seq<char>),
    Blank,
    Comment,
}

impl View for Gap {
    type V = Trivia;

    open spec fn view(&self) -> Trivia {
        match self {
            Gap::Glued => Trivia::Glued,
            Gap::Space { flat } => Trivia::Space(flat@),
            Gap::Blank => Trivia::Blank,
            Gap::Comment => Trivia::Comment,
        }
    }
}

impl Trivia {
    /// What a gap comes to: any line break is a space, two make an empty line, and without one
    /// the white space stays as it is.
    pub open spec fn of_run(newlines: int, trailing: Seq<char>) -> Trivia {
        if newlines <= 0 {
            Trivia::Space(trailing)
        } else if newlines == 1 {
            Trivia::Space(seq![' '])
        } else {
            Trivia::Blank
        }
    }

    /// What is written in the gap where the line goes on.
    pub open spec fn flat(self) -> Seq<char> {
        match self {
            Trivia::Space(flat) => flat,
            Trivia::Blank => seq![' '],
            _ => Seq::<char>::empty(),
        }
    }

    /// What stands in the gap where a line may end.
    pub open spec fn separator(self) -> Layout {
        if self is Glued {
            Layout::SoftLine
        } else {
            Layout::Line
        }
    }
}

impl Gap {
    /// A gap that is one space.
    pub fn space() -> (r: Gap)
        ensures
            r@ == Trivia::Space(seq![' ']),
    {
        proof {
            reveal_strlit(" ");
        }
        assert(" "@ =~= seq![' ']);
        Gap::Space { flat: " ".to_owned() }
    }

    /// What a run of white space comes to: how many line breaks it has, and what stands behind
    /// the last of them.
    pub fn from_run(newlines: usize, trailing_ws: String) -> (r: Gap)
        ensures
            r@ == Trivia::of_run(newlines as int, trailing_ws@),
    {
        if newlines == 0 {
            Gap::Space { flat: trailing_ws }
        } else if newlines == 1 {
            Gap::space()
        } else {
            Gap::Blank
        }
    }

    /// What is written in the gap where the line goes on.
    pub fn flat(&self) -> (r: &str)
        ensures
            r@ == self@.flat(),
    {
        proof {
            reveal_strlit(" ");
            reveal_strlit("");
        }
        assert(" "@ =~= seq![' ']);
        assert(""@ =~= Seq::<char>::empty());
        match self {
            Gap::Space { flat } => flat.as_str(),
            Gap::Blank => " ",
            Gap::Glued => "",
            Gap::Comment => "",
        }
    }

    /// What stands in the gap where a line may end: where the neighbours touch, nothing is
    /// written unless the line does end.
    pub fn separator(&self) -> (r: Ir)
        ensures
            r@ == self@.separator(),
    {
        match self {
            Gap::Glued => Ir::SoftLine,
            _ => Ir::Line,
        }
    }

    pub fn is_blank(&self) -> (r: bool)
        ensures
            r == self@ is Blank,
    {
        match self {
            Gap::Blank => true,
            _ => false,
        }
    }
}

/// A gap whose line breaks can still be counted.
pub struct WideGap {
    pub gap: Gap,
    pub newlines: usize,
}

impl WideGap {
    /// The gap, with its line breaks forgotten.
    pub fn narrow(self) -> (r: Gap)
        ensures
            r@ == self.gap@,
    {
        self.gap
    }
}

// ---- runs of white space -------------------------------------------------------------------

/// Where the run of collapsible white space from `i` on ends.
pub open spec fn gap_end(t: &Tree, es: Seq<usize>, i: int) -> int
    decreases es.len() - i,
{
    if gap_at(t, es, i) {
        gap_end(t, es, i + 1)
    } else {
        i
    }
}

/// How many line breaks the run of white space from `i` on has.
pub open spec fn gap_newlines(t: &Tree, es: Seq<usize>, i: int) -> int
    decreases es.len() - i,
{
    if gap_at(t, es, i) {
        gap_newlines(t, es, i + 1) + if tok_at(t, es, i, SyntaxKind::Newline) {
            1int
        } else {
            0
        }
    } else {
        0
    }
}

/// What stands behind the last line break of the run from `i` on, after `ws`.
pub open spec fn gap_tail(t: &Tree, es: Seq<usize>, i: int, ws: Seq<char>) -> Seq<char>
    decreases es.len() - i,
{
    if gap_at(t, es, i) {
        if tok_at(t, es, i, SyntaxKind::Newline) {
            gap_tail(t, es, i + 1, Seq::<char>::empty())
        } else {
            gap_tail(t, es, i + 1, ws + t.txt(es[i] as int))
        }
    } else {
        ws
    }
}

/// What the run of white space from `i` on comes to.
pub open spec fn gap_of(t: &Tree, es: Seq<usize>, i: int) -> Trivia {
    Trivia::of_run(gap_newlines(t, es, i), gap_tail(t, es, i, Seq::<char>::empty()))
}

/// A run ends behind its start and within the list.
pub proof fn lemma_gap_end(t: &Tree, es: Seq<usize>, i: int)
    ensures
        gap_end(t, es, i) >= i,
        i <= es.len() ==> gap_end(t, es, i) <= es.len(),
        gap_at(t, es, i) ==> gap_end(t, es, i) > i,
        0 <= gap_newlines(t, es, i) <= gap_end(t, es, i) - i,
        !gap_at(t, es, gap_end(t, es, i)),
    decreases es.len() - i,
{
    if gap_at(t, es, i) {
        lemma_gap_end(t, es, i + 1);
    }
}

/// Where the run of blanks from `i` on ends: white space within a line.
pub open spec fn blanks_end(t: &Tree, es: Seq<usize>, i: int) -> int
    decreases es.len() - i,
{
    if tok_at(t, es, i, SyntaxKind::Whitespace) {
        blanks_end(t, es, i + 1)
    } else {
        i
    }
}

/// A run of blanks ends behind its start and within the list.
pub proof fn lemma_blanks_end(t: &Tree, es: Seq<usize>, i: int)
    ensures
        blanks_end(t, es, i) >= i,
        i <= es.len() ==> blanks_end(t, es, i) <= es.len(),
    decreases es.len() - i,
{
    if tok_at(t, es, i, SyntaxKind::Whitespace) {
        lemma_blanks_end(t, es, i + 1);
    }
}

impl<'a> LowerCtx<'a> {
    /// Takes the run of white space that starts at `start`, and says where it ends.
    pub fn consume_gap_widened(&self, es: &Vec<usize>, start: usize) -> (r: (WideGap, usize))
        requires
            in_tree(self.t, es@),
            start <= es@.len(),
        ensures
            r.0.newlines == gap_newlines(self.t, es@, start as int),
            r.0.gap@ == gap_of(self.t, es@, start as int),
            r.1 == gap_end(self.t, es@, start as int),
            start <= r.1 <= es@.len(),
            gap_at(self.t, es@, start as int) ==> start < r.1,
    {
        let mut newlines: usize = 0;
        let mut trailing = String::new();
        let mut i: usize = start;
        assert(trailing@ =~= Seq::<char>::empty());
        while self.is_gap_at(es, i)
            invariant
                in_tree(self.t, es@),
                start <= i <= es@.len(),
                newlines <= i - start,
                newlines + gap_newlines(self.t, es@, i as int) == gap_newlines(self.t, es@, start as int),
                gap_tail(self.t, es@, i as int, trailing@) == gap_tail(
                    self.t,
                    es@,
                    start as int,
                    Seq::<char>::empty(),
                ),
                gap_end(self.t, es@, i as int) == gap_end(self.t, es@, start as int),
            decreases es@.len() - i,
        {
            assert(i < es.len());
            if self.t.token_is(es[i], SyntaxKind::Newline) {
                newlines = newlines + 1;
                trailing = String::new();
                assert(trailing@ =~= Seq::<char>::empty());
            } else {
                trailing.append(self.t.text(es[i]));
            }
            i = i + 1;
        }
        proof {
            lemma_gap_end(self.t, es@, start as int);
        }
        (WideGap { gap: Gap::from_run(newlines, trailing), newlines }, i)
    }

    /// Takes the run of white space that starts at `start`, with its line breaks forgotten.
    pub fn consume_gap(&self, es: &Vec<usize>, start: usize) -> (r: (Gap, usize))
        requires
            in_tree(self.t, es@),
            start <= es@.len(),
        ensures
            r.0@ == gap_of(self.t, es@, start as int),
            r.1 == gap_end(self.t, es@, start as int),
            start <= r.1 <= es@.len(),
            gap_at(self.t, es@, start as int) ==> start < r.1,
    {
        let (gap, end) = self.consume_gap_widened(es, start);
        (gap.narrow(), end)
    }

    /// Takes the run of white space that starts at `start`, and says how many line breaks it has
    /// and where it ends.
    pub fn consume_widened_gap_slice(&self, es: &Vec<usize>, start: usize) -> (r: (usize, usize))
        requires
            in_tree(self.t, es@),
            start <= es@.len(),
        ensures
            r.0 == gap_newlines(self.t, es@, start as int),
            r.1 == gap_end(self.t, es@, start as int),
            start <= r.1 <= es@.len(),
            gap_at(self.t, es@, start as int) ==> start < r.1,
    {
        let (gap, end) = self.consume_gap_widened(es, start);
        (gap.newlines, end)
    }

    /// Steps over blanks.
    pub fn skip_blanks(&self, es: &Vec<usize>, start: usize) -> (r: usize)
        requires
            in_tree(self.t, es@),
            start <= es@.len(),
        ensures
            r == blanks_end(self.t, es@, start as int),
            start <= r <= es@.len(),
    {
        let mut i: usize = start;
        while self.token_at(es, i, SyntaxKind::Whitespace)
            invariant
                in_tree(self.t, es@),
                start <= i <= es@.len(),
                blanks_end(self.t, es@, i as int) == blanks_end(self.t, es@, start as int),
            decreases es@.len() - i,
        {
            assert(i < es.len());
            i = i + 1;
        }
        i
    }
}

/// What a run of white space is where the author's lines are kept. In a table cell a single
/// line break is a gap like any other.
pub open spec fn trivia_layout(gap: Trivia, newlines: int, soften: bool) -> Layout {
    if newlines == 0 {
        verbatim(gap.flat())
    } else if newlines == 1 {
        if soften {
            Layout::Line
        } else {
            Layout::HardLine
        }
    } else {
        Layout::EmptyLine
    }
}

pub fn classify_trivia(gap: WideGap, soften_newline: bool) -> (r: Ir)
    ensures
        r@ == trivia_layout(gap.gap@, gap.newlines as int, soften_newline),
{
    if gap.newlines == 0 {
        Ir::verbatim(gap.gap.flat())
    } else if gap.newlines == 1 {
        if soften_newline {
            Ir::Line
        } else {
            Ir::HardLine
        }
    } else {
        Ir::EmptyLine
    }
}

// ---- the edges of a body -------------------------------------------------------------------

/// Whether a text is blanks and tabs alone.
pub open spec fn all_blank(text: Seq<char>) -> bool {
    forall|i: int| 0 <= i < text.len() ==> (#[trigger] text[i]) == ' ' || text[i] == '\t'
}

pub fn is_all_blank(text: &str) -> (r: bool)
    ensures
        r == all_blank(text@),
{
    let mut ok = true;
    for c in it: text.chars()
        invariant
            it.seq() == text@,
            ok == (forall|i: int| 0 <= i < it.index() ==> (#[trigger] text@[i]) == ' ' || text@[i] == '\t'),
    {
        if c != ' ' && c != '\t' {
            ok = false;
        }
    }
    ok
}

/// Whether a piece at the edge of a body is a break or an indentation, which whoever encloses
/// the body supplies.
pub open spec fn trimmable(l: Layout) -> bool {
    match l {
        Layout::HardLine => true,
        Layout::EmptyLine => true,
        Layout::Nil => true,
        Layout::Verbatim { text, force_break } => !force_break && all_blank(text),
        _ => false,
    }
}

pub fn is_trimmable_break(ir: &Ir) -> (r: bool)
    ensures
        r == trimmable(ir@),
{
    match ir {
        Ir::HardLine => true,
        Ir::EmptyLine => true,
        Ir::Nil => true,
        Ir::Verbatim { text, force_break } => !*force_break && is_all_blank(text.as_str()),
        _ => false,
    }
}

/// Whether a break left an empty line at the front, and the piece without the breaks there.
pub open spec fn peel_front(l: Layout) -> (bool, Layout)
    decreases l,
{
    if trimmable(l) {
        (l is EmptyLine, Layout::Nil)
    } else {
        match l {
            Layout::Concat(items) => {
                let (blank, rest) = peel_front_of(items);
                (blank, concat(rest))
            },
            _ => (false, l),
        }
    }
}

/// The same for a list of pieces.
pub open spec fn peel_front_of(items: Seq<Layout>) -> (bool, Seq<Layout>)
    decreases items,
{
    if items.len() == 0 {
        (false, items)
    } else {
        let (blank, head) = peel_front(items[0]);
        let rest = items.subrange(1, items.len() as int);
        if head is Nil {
            let (more, left) = peel_front_of(rest);
            (blank || more, left)
        } else {
            (blank, seq![head] + rest)
        }
    }
}

/// Whether a break left an empty line at the back, and the piece without the breaks there.
pub open spec fn peel_back(l: Layout) -> (bool, Layout)
    decreases l,
{
    if trimmable(l) {
        (l is EmptyLine, Layout::Nil)
    } else {
        match l {
            Layout::Concat(items) => {
                let (blank, rest) = peel_back_of(items);
                (blank, concat(rest))
            },
            _ => (false, l),
        }
    }
}

/// The same for a list of pieces.
pub open spec fn peel_back_of(items: Seq<Layout>) -> (bool, Seq<Layout>)
    decreases items,
{
    if items.len() == 0 {
        (false, items)
    } else {
        let (blank, tail) = peel_back(items.last());
        let rest = items.drop_last();
        if tail is Nil {
            let (more, left) = peel_back_of(rest);
            (blank || more, left)
        } else {
            (blank, rest.push(tail))
        }
    }
}

/// Takes the breaks off the front of a piece, and says whether an empty line was among them.
pub fn peel_leading_break(ir: &Ir) -> (r: (bool, Ir))
    ensures
        (r.0, r.1@) == peel_front(ir@),
    decreases ir,
{
    if is_trimmable_break(ir) {
        let blank = match ir {
            Ir::EmptyLine => true,
            _ => false,
        };
        return (blank, Ir::Nil);
    }
    match ir {
        Ir::Concat(items) => {
            let ghost all = crate::ir::layouts(items@);
            proof {
                crate::ir::lemma_list_view(*items);
                assert(all.subrange(0, all.len() as int) =~= all);
            }
            let mut blank = false;
            let mut i: usize = 0;
            while i < items.len()
                invariant
                    i <= items@.len(),
                    decreases_to!(ir => items),
                    all == crate::ir::layouts(items@),
                    ir@ == Layout::Concat(all),
                    !trimmable(ir@),
                    (blank || peel_front_of(all.subrange(i as int, all.len() as int)).0, peel_front_of(
                        all.subrange(i as int, all.len() as int),
                    ).1) == peel_front_of(all),
                decreases items@.len() - i,
            {
                assert(decreases_to!(items => items@[i as int]));
                let (b, head) = peel_leading_break(&items[i]);
                let ghost left = all.subrange(i as int, all.len() as int);
                proof {
                    assert(left[0] == items@[i as int]@);
                    assert(left.subrange(1, left.len() as int) =~= all.subrange(i + 1, all.len() as int));
                }
                blank = blank || b;
                if !head.is_nil() {
                    let mut out = IrList::new();
                    out.push(head);
                    let mut j: usize = i + 1;
                    while j < items.len()
                        invariant
                            i < j <= items@.len(),
                            all == crate::ir::layouts(items@),
                            out@ == seq![head@] + all.subrange(i + 1, j as int),
                        decreases items@.len() - j,
                    {
                        out.push(items[j].clone());
                        assert(all.subrange(i + 1, j + 1) =~= all.subrange(i + 1, j as int).push(all[j as int]));
                        assert(out@ =~= seq![head@] + all.subrange(i + 1, j + 1));
                        j = j + 1;
                    }
                    return (blank, Ir::concat(out));
                }
                i = i + 1;
            }
            (blank, Ir::Nil)
        },
        _ => (false, ir.clone()),
    }
}

/// Takes the breaks off the back of a piece, and says whether an empty line was among them.
pub fn peel_trailing_break(ir: &Ir) -> (r: (bool, Ir))
    ensures
        (r.0, r.1@) == peel_back(ir@),
    decreases ir,
{
    if is_trimmable_break(ir) {
        let blank = match ir {
            Ir::EmptyLine => true,
            _ => false,
        };
        return (blank, Ir::Nil);
    }
    match ir {
        Ir::Concat(items) => {
            let ghost all = crate::ir::layouts(items@);
            proof {
                crate::ir::lemma_list_view(*items);
                assert(all.take(all.len() as int) =~= all);
            }
            let mut blank = false;
            let mut i: usize = items.len();
            while i > 0
                invariant
                    i <= items@.len(),
                    decreases_to!(ir => items),
                    all == crate::ir::layouts(items@),
                    ir@ == Layout::Concat(all),
                    !trimmable(ir@),
                    (blank || peel_back_of(all.take(i as int)).0, peel_back_of(all.take(i as int)).1)
                        == peel_back_of(all),
                decreases i,
            {
                assert(decreases_to!(items => items@[i - 1]));
                let (b, tail) = peel_trailing_break(&items[i - 1]);
                let ghost left = all.take(i as int);
                proof {
                    assert(left.last() == items@[i - 1]@);
                    assert(left.drop_last() =~= all.take(i - 1));
                }
                blank = blank || b;
                if !tail.is_nil() {
                    let mut out = IrList::new();
                    let mut j: usize = 0;
                    while j < i - 1
                        invariant
                            0 < i <= items@.len(),
                            j <= i - 1,
                            all == crate::ir::layouts(items@),
                            out@ == all.take(j as int),
                        decreases i - j,
                    {
                        out.push(items[j].clone());
                        assert(all.take(j + 1) =~= all.take(j as int).push(all[j as int]));
                        j = j + 1;
                    }
                    out.push(tail);
                    return (blank, Ir::concat(out));
                }
                i = i - 1;
            }
            (blank, Ir::Nil)
        },
        _ => (false, ir.clone()),
    }
}

/// A piece without the breaks at its front.
pub fn trim_leading_break(ir: &Ir) -> (r: Ir)
    ensures
        r@ == peel_front(ir@).1,
{
    peel_leading_break(ir).1
}

/// A piece without the breaks at its back.
pub fn trim_trailing_break(ir: &Ir) -> (r: Ir)
    ensures
        r@ == peel_back(ir@).1,
{
    peel_trailing_break(ir).1
}

// ---- laws ----------------------------------------------------------------------------------

/// A single line break, whatever indentation follows it, and a single space are the same gap.
pub proof fn a_newline_is_a_space(trailing: Seq<char>)
    ensures
        Trivia::of_run(1, trailing) == Trivia::of_run(0, seq![' ']),
{
}

/// An empty line is never taken for another gap, and is written as one space where the line goes
/// on.
pub proof fn an_empty_line_is_kept(newlines: int, trailing: Seq<char>)
    ensures
        Trivia::of_run(newlines, trailing) is Blank <==> newlines >= 2,
        newlines >= 2 ==> Trivia::of_run(newlines, trailing).flat() == seq![' '],
{
}

/// White space within a line is written as it stands.
pub proof fn a_wide_gap_is_written_as_it_stands(trailing: Seq<char>)
    ensures
        Trivia::of_run(0, trailing).flat() == trailing,
{
}

/// Between neighbours that touch, the line goes on without a space; between others it goes on
/// with one.
pub proof fn only_touching_neighbours_stay_together(gap: Trivia)
    ensures
        crate::ir::flat_text(gap.separator()) == if gap is Glued {
            Seq::<char>::empty()
        } else {
            seq![' ']
        },
{
}

proof fn lemma_kept_front(head: Layout, rest: Seq<Layout>)
    requires
        !(head is Nil),
    ensures
        crate::ir::kept(seq![head] + rest) == seq![head] + crate::ir::kept(rest),
    decreases rest.len(),
{
    let all = seq![head] + rest;
    if rest.len() == 0 {
        assert(all.drop_last() =~= Seq::<Layout>::empty());
        assert(crate::ir::kept(all.drop_last()) =~= Seq::<Layout>::empty());
        assert(crate::ir::kept(all) =~= seq![head] + crate::ir::kept(rest));
    } else {
        lemma_kept_front(head, rest.drop_last());
        assert(all.drop_last() =~= seq![head] + rest.drop_last());
        assert(crate::ir::kept(all) =~= seq![head] + crate::ir::kept(rest));
    }
}

proof fn lemma_kept_twice(parts: Seq<Layout>)
    ensures
        crate::ir::kept(crate::ir::kept(parts)) == crate::ir::kept(parts),
    decreases parts.len(),
{
    if parts.len() > 0 {
        lemma_kept_twice(parts.drop_last());
        if !(parts.last() is Nil) {
            let before = crate::ir::kept(parts.drop_last());
            let all = before.push(parts.last());
            assert(all.drop_last() =~= before);
        }
    }
}

proof fn lemma_peeled_list(head: Layout, rest: Seq<Layout>)
    requires
        !(head is Nil),
        peel_front(head) == (false, head),
    ensures
        peel_front(concat(seq![head] + rest)) == (false, concat(seq![head] + rest)),
{
    let all = seq![head] + rest;
    let tail = crate::ir::kept(rest);
    lemma_kept_front(head, rest);
    let list = seq![head] + tail;
    if tail.len() > 0 {
        let l = Layout::Concat(list);
        assert(concat(all) == l);
        assert(list[0] == head);
        assert(list.subrange(1, list.len() as int) =~= tail);
        assert(peel_front_of(list) == (false, seq![head] + tail));
        lemma_kept_twice(all);
        assert(concat(list) == l);
    } else {
        assert(list =~= seq![head]);
    }
}

proof fn lemma_peel_front(l: Layout)
    ensures
        peel_front(peel_front(l).1) == (false, peel_front(l).1),
    decreases l, 0int,
{
    if !trimmable(l) {
        match l {
            Layout::Concat(items) => {
                lemma_peel_front_of(items);
            },
            _ => {},
        }
    }
}

proof fn lemma_peel_front_of(items: Seq<Layout>)
    ensures
        peel_front(concat(peel_front_of(items).1)) == (false, concat(peel_front_of(items).1)),
    decreases items, 1int,
{
    if items.len() > 0 {
        let head = peel_front(items[0]).1;
        let rest = items.subrange(1, items.len() as int);
        lemma_peel_front(items[0]);
        if head is Nil {
            lemma_peel_front_of(rest);
        } else {
            lemma_peeled_list(head, rest);
        }
    }
}

/// Taking the breaks off the front of a piece leaves none there: a second time finds nothing.
pub proof fn peeling_leaves_no_break_at_the_front(l: Layout)
    ensures
        peel_front(peel_front(l).1) == (false, peel_front(l).1),
{
    lemma_peel_front(l);
}

proof fn lemma_peeled_list_back(rest: Seq<Layout>, tail: Layout)
    requires
        !(tail is Nil),
        peel_back(tail) == (false, tail),
    ensures
        peel_back(concat(rest.push(tail))) == (false, concat(rest.push(tail))),
{
    let all = rest.push(tail);
    let before = crate::ir::kept(rest);
    assert(all.drop_last() =~= rest);
    let list = before.push(tail);
    assert(crate::ir::kept(all) == list);
    if before.len() > 0 {
        let l = Layout::Concat(list);
        assert(concat(all) == l);
        assert(list.drop_last() =~= before);
        assert(peel_back_of(list) == (false, list));
        lemma_kept_twice(all);
        assert(concat(list) == l);
    } else {
        assert(list[0] == tail);
    }
}

proof fn lemma_peel_back(l: Layout)
    ensures
        peel_back(peel_back(l).1) == (false, peel_back(l).1),
    decreases l, 0int,
{
    if !trimmable(l) {
        match l {
            Layout::Concat(items) => {
                lemma_peel_back_of(items);
            },
            _ => {},
        }
    }
}

proof fn lemma_peel_back_of(items: Seq<Layout>)
    ensures
        peel_back(concat(peel_back_of(items).1)) == (false, concat(peel_back_of(items).1)),
    decreases items, 1int,
{
    if items.len() > 0 {
        let tail = peel_back(items.last()).1;
        let rest = items.drop_last();
        lemma_peel_back(items.last());
        if tail is Nil {
            lemma_peel_back_of(rest);
        } else {
            lemma_peeled_list_back(rest, tail);
        }
    }
}

/// Taking the breaks off the back of a piece leaves none there: a second time finds nothing.
pub proof fn peeling_leaves_no_break_at_the_back(l: Layout)
    ensures
        peel_back(peel_back(l).1) == (false, peel_back(l).1),
{
    lemma_peel_back(l);
}

} // verus!

//! The layout tree that lowering produces and a printer consumes.
//!
//! An [`Ir`] says which text stands where and which gaps may become line breaks.
//! Contracts speak of its mathematical content, a [`Layout`].

use vstd::prelude::*;

verus! {

/// One piece of layout.
#[derive(Debug, PartialEq, Eq)]
pub enum Ir {
    /// Nothing at all.
    Nil,
    /// Plain text without a line break.
    Text(String),
    /// Source text reproduced as it stands. `force_break` holds when the text spans lines.
    Verbatim { text: String, force_break: bool },
    /// Text that takes no room when a line is measured.
    ZeroWidth(String),
    /// Text that starts in the first column.
    ColumnZero(String),
    /// A space when flat, a line break when broken.
    Line,
    /// Nothing when flat, a line break when broken.
    SoftLine,
    /// Nothing when flat, a line break when broken, as wide as a [`Ir::Line`].
    TightLine,
    /// A line break in every mode.
    HardLine,
    /// A line break that leaves one empty line.
    EmptyLine,
    /// The parts one after the other.
    Concat(Vec<Ir>),
    /// Words with a [`Ir::Line`] between neighbours, broken one gap at a time.
    Fill(Vec<Ir>),
    /// Words and separators in turn. A word that spans lines is measured by its first line.
    HugFill(Vec<Ir>),
    /// Words and separators in turn. Once a gap breaks, the gaps after it break too.
    StickyFill(Vec<Ir>),
    /// Words whose gaps break near `target`, with a preference for the marked gaps.
    PreferredFill { atoms: Vec<Ir>, preferred: Vec<bool>, target: usize },
    /// The first candidate whose every line fits, else the last.
    Candidates(Vec<Ir>),
    /// All gaps of the body flat when it fits, all broken otherwise.
    Group(Box<Ir>),
    /// A group that is measured up to its first forced break.
    HugGroup(Box<Ir>),
    /// The body one indentation step deeper.
    Indent(Box<Ir>),
    /// The body with its later lines `width` columns deeper.
    Align { width: usize, body: Box<Ir> },
    /// The body with its later lines at the column where it starts.
    AlignCurrent(Box<Ir>),
    /// `aligned` when its continuation lines fit, else `hanging`.
    BoundedAlign { aligned: Box<Ir>, hanging: Box<Ir> },
    /// `flat` where the enclosing group is flat, `broken` where it is broken.
    IfBreak { flat: Box<Ir>, broken: Box<Ir> },
    /// The body with `margin` in the first column of each of its lines.
    MarginPrefix { margin: String, body: Box<Ir> },
    /// The body under a documentation margin that it owns itself.
    DocMargin(Box<Ir>),
}

/// The mathematical content of an [`Ir`].
pub enum Layout {
    Nil,
    Text(Seq<char>),
    Verbatim { text: Seq<char>, force_break: bool },
    ZeroWidth(Seq<char>),
    ColumnZero(Seq<char>),
    Line,
    SoftLine,
    /// Nothing when flat, a line break when broken, as wide as a [`Ir::Line`].
    TightLine,
    HardLine,
    EmptyLine,
    Concat(Seq<Layout>),
    Fill(Seq<Layout>),
    HugFill(Seq<Layout>),
    StickyFill(Seq<Layout>),
    PreferredFill { atoms: Seq<Layout>, preferred: Seq<bool>, target: int },
    Candidates(Seq<Layout>),
    Group(Box<Layout>),
    HugGroup(Box<Layout>),
    Indent(Box<Layout>),
    Align { width: int, body: Box<Layout> },
    AlignCurrent(Box<Layout>),
    BoundedAlign { aligned: Box<Layout>, hanging: Box<Layout> },
    IfBreak { flat: Box<Layout>, broken: Box<Layout> },
    MarginPrefix { margin: Seq<char>, body: Box<Layout> },
    DocMargin(Box<Layout>),
}

impl View for Ir {
    type V = Layout;

    open spec fn view(&self) -> Layout
        decreases self,
    {
        match *self {
            Ir::Nil => Layout::Nil,
            Ir::Line => Layout::Line,
            Ir::SoftLine => Layout::SoftLine,
            Ir::TightLine => Layout::TightLine,
            Ir::HardLine => Layout::HardLine,
            Ir::EmptyLine => Layout::EmptyLine,
            Ir::Text(text) => Layout::Text(text@),
            Ir::ZeroWidth(text) => Layout::ZeroWidth(text@),
            Ir::ColumnZero(text) => Layout::ColumnZero(text@),
            Ir::Verbatim { text, force_break } => Layout::Verbatim { text: text@, force_break },
            Ir::Concat(items) => Layout::Concat(Seq::new(items@.len(), |i: int| if 0 <= i < items@.len() { items@[i].view() } else { Layout::Nil })),
            Ir::Fill(items) => Layout::Fill(Seq::new(items@.len(), |i: int| if 0 <= i < items@.len() { items@[i].view() } else { Layout::Nil })),
            Ir::HugFill(items) => Layout::HugFill(Seq::new(items@.len(), |i: int| if 0 <= i < items@.len() { items@[i].view() } else { Layout::Nil })),
            Ir::StickyFill(items) => Layout::StickyFill(Seq::new(items@.len(), |i: int| if 0 <= i < items@.len() { items@[i].view() } else { Layout::Nil })),
            Ir::Candidates(items) => Layout::Candidates(Seq::new(items@.len(), |i: int| if 0 <= i < items@.len() { items@[i].view() } else { Layout::Nil })),
            Ir::PreferredFill { atoms, preferred, target } => Layout::PreferredFill { atoms: Seq::new(atoms@.len(), |i: int| if 0 <= i < atoms@.len() { atoms@[i].view() } else { Layout::Nil }), preferred: preferred@, target: target as int },
            Ir::Group(body) => Layout::Group(Box::new((*body).view())),
            Ir::HugGroup(body) => Layout::HugGroup(Box::new((*body).view())),
            Ir::Indent(body) => Layout::Indent(Box::new((*body).view())),
            Ir::AlignCurrent(body) => Layout::AlignCurrent(Box::new((*body).view())),
            Ir::DocMargin(body) => Layout::DocMargin(Box::new((*body).view())),
            Ir::Align { width, body } => Layout::Align { width: width as int, body: Box::new((*body).view()) },
            Ir::BoundedAlign { aligned, hanging } => Layout::BoundedAlign { aligned: Box::new((*aligned).view()), hanging: Box::new((*hanging).view()) },
            Ir::IfBreak { flat, broken } => Layout::IfBreak { flat: Box::new((*flat).view()), broken: Box::new((*broken).view()) },
            Ir::MarginPrefix { margin, body } => Layout::MarginPrefix { margin: margin@, body: Box::new((*body).view()) },
        }
    }
}

/// The contents of a list of pieces.
pub open spec fn layouts(items: Seq<Ir>) -> Seq<Layout> {
    Seq::new(items.len(), |i: int| if 0 <= i < items.len() { items[i].view() } else { Layout::Nil })
}

/// The content of a piece that holds a list is the list of contents.
pub(crate) proof fn lemma_list_view(items: Vec<Ir>)
    ensures
        Ir::Concat(items)@ == Layout::Concat(layouts(items@)),
        Ir::Fill(items)@ == Layout::Fill(layouts(items@)),
        Ir::HugFill(items)@ == Layout::HugFill(layouts(items@)),
        Ir::StickyFill(items)@ == Layout::StickyFill(layouts(items@)),
        Ir::Candidates(items)@ == Layout::Candidates(layouts(items@)),
{
    assert(Ir::Concat(items)@ == Layout::Concat(layouts(items@))) by {
        let r = Ir::Concat(items);
        assert(r@ is Concat);
        assert forall|i: int| 0 <= i < items@.len() implies r@->Concat_0[i] == items@[i]@ by {}
        assert(r@->Concat_0 =~= layouts(items@));
    }
    assert(Ir::Fill(items)@ == Layout::Fill(layouts(items@))) by {
        let r = Ir::Fill(items);
        assert(r@ is Fill);
        assert forall|i: int| 0 <= i < items@.len() implies r@->Fill_0[i] == items@[i]@ by {}
        assert(r@->Fill_0 =~= layouts(items@));
    }
    assert(Ir::HugFill(items)@ == Layout::HugFill(layouts(items@))) by {
        let r = Ir::HugFill(items);
        assert(r@ is HugFill);
        assert forall|i: int| 0 <= i < items@.len() implies r@->HugFill_0[i] == items@[i]@ by {}
        assert(r@->HugFill_0 =~= layouts(items@));
    }
    assert(Ir::StickyFill(items)@ == Layout::StickyFill(layouts(items@))) by {
        let r = Ir::StickyFill(items);
        assert(r@ is StickyFill);
        assert forall|i: int| 0 <= i < items@.len() implies r@->StickyFill_0[i] == items@[i]@ by {}
        assert(r@->StickyFill_0 =~= layouts(items@));
    }
    assert(Ir::Candidates(items)@ == Layout::Candidates(layouts(items@))) by {
        let r = Ir::Candidates(items);
        assert(r@ is Candidates);
        assert forall|i: int| 0 <= i < items@.len() implies r@->Candidates_0[i] == items@[i]@ by {}
        assert(r@->Candidates_0 =~= layouts(items@));
    }
}

/// The same of a fill with preferred breaks.
pub(crate) proof fn lemma_preferred_view(items: Vec<Ir>, preferred: Vec<bool>, target: usize)
    ensures
        (Ir::PreferredFill { atoms: items, preferred, target })@ == (Layout::PreferredFill {
            atoms: layouts(items@),
            preferred: preferred@,
            target: target as int,
        }),
{
    let r = Ir::PreferredFill { atoms: items, preferred, target };
    assert(r@ is PreferredFill);
    assert forall|i: int| 0 <= i < items@.len() implies r@->atoms[i] == items@[i]@ by {}
    assert(r@->atoms =~= layouts(items@));
}

/// A copy of a list of pieces with the same contents.
fn clone_list(items: &Vec<Ir>) -> (r: Vec<Ir>)
    ensures
        layouts(r@) == layouts(items@),
        r@.len() == items@.len(),
    decreases items, 0int,
{
    let mut out: Vec<Ir> = Vec::new();
    let mut i: usize = 0;
    while i < items.len()
        invariant
            i <= items.len(),
            out@.len() == i,
            forall|k: int| 0 <= k < i ==> (#[trigger] out@[k])@ == items@[k]@,
        decreases items.len() - i,
    {
        assert(decreases_to!(items => items@[i as int]));
        let c = items[i].clone();
        out.push(c);
        i = i + 1;
    }
    assert(layouts(out@) =~= layouts(items@));
    out
}

impl Clone for Ir {
    fn clone(&self) -> (r: Ir)
        ensures
            r@ == self@,
        decreases self, 1int,
    {
        match self {
            Ir::Nil => Ir::Nil,
            Ir::Line => Ir::Line,
            Ir::SoftLine => Ir::SoftLine,
            Ir::TightLine => Ir::TightLine,
            Ir::HardLine => Ir::HardLine,
            Ir::EmptyLine => Ir::EmptyLine,
            Ir::Text(text) => Ir::Text(text.clone()),
            Ir::ZeroWidth(text) => Ir::ZeroWidth(text.clone()),
            Ir::ColumnZero(text) => Ir::ColumnZero(text.clone()),
            Ir::Verbatim { text, force_break } => Ir::Verbatim { text: text.clone(), force_break: *force_break },
            Ir::Concat(items) => {
                let out = clone_list(items);
                proof {
                    lemma_list_view(out);
                    lemma_list_view(*items);
                }
                Ir::Concat(out)
            },
            Ir::Fill(items) => {
                let out = clone_list(items);
                proof {
                    lemma_list_view(out);
                    lemma_list_view(*items);
                }
                Ir::Fill(out)
            },
            Ir::HugFill(items) => {
                let out = clone_list(items);
                proof {
                    lemma_list_view(out);
                    lemma_list_view(*items);
                }
                Ir::HugFill(out)
            },
            Ir::StickyFill(items) => {
                let out = clone_list(items);
                proof {
                    lemma_list_view(out);
                    lemma_list_view(*items);
                }
                Ir::StickyFill(out)
            },
            Ir::Candidates(items) => {
                let out = clone_list(items);
                proof {
                    lemma_list_view(out);
                    lemma_list_view(*items);
                }
                Ir::Candidates(out)
            },
            Ir::PreferredFill { atoms, preferred, target } => {
                let out = clone_list(atoms);
                let marks = preferred.clone();
                let r = Ir::PreferredFill { atoms: out, preferred: marks, target: *target };
                proof {
                    assert(marks@ =~= preferred@);
                    lemma_preferred_view(out, marks, *target);
                    lemma_preferred_view(*atoms, *preferred, *target);
                }
                r
            },
            Ir::Group(body) => Ir::Group(Box::new((**body).clone())),
            Ir::HugGroup(body) => Ir::HugGroup(Box::new((**body).clone())),
            Ir::Indent(body) => Ir::Indent(Box::new((**body).clone())),
            Ir::AlignCurrent(body) => Ir::AlignCurrent(Box::new((**body).clone())),
            Ir::DocMargin(body) => Ir::DocMargin(Box::new((**body).clone())),
            Ir::Align { width, body } => Ir::Align { width: *width, body: Box::new((**body).clone()) },
            Ir::BoundedAlign { aligned, hanging } => Ir::BoundedAlign { aligned: Box::new((**aligned).clone()), hanging: Box::new((**hanging).clone()) },
            Ir::IfBreak { flat, broken } => Ir::IfBreak { flat: Box::new((**flat).clone()), broken: Box::new((**broken).clone()) },
            Ir::MarginPrefix { margin, body } => Ir::MarginPrefix { margin: margin.clone(), body: Box::new((**body).clone()) },
        }
    }
}

/// A list of pieces under construction.
pub struct IrList {
    pub items: Vec<Ir>,
}

impl View for IrList {
    type V = Seq<Layout>;

    open spec fn view(&self) -> Seq<Layout> {
        layouts(self.items@)
    }
}

impl IrList {
    pub fn new() -> (r: IrList)
        ensures
            r@ == Seq::<Layout>::empty(),
    {
        let r = IrList { items: Vec::new() };
        assert(r@ =~= Seq::<Layout>::empty());
        r
    }

    pub fn push(&mut self, ir: Ir)
        ensures
            final(self)@ == old(self)@.push(ir@),
    {
        let ghost before = self.items@;
        self.items.push(ir);
        assert(layouts(self.items@) =~= layouts(before).push(ir@));
    }

    pub fn len(&self) -> (n: usize)
        ensures
            n == self@.len(),
    {
        self.items.len()
    }

    pub fn is_empty(&self) -> (b: bool)
        ensures
            b == (self@.len() == 0),
    {
        self.items.len() == 0
    }

    /// Takes the last piece off a list that has one.
    pub fn pop(&mut self) -> (r: Ir)
        requires
            old(self)@.len() > 0,
        ensures
            r@ == old(self)@.last(),
            final(self)@ == old(self)@.drop_last(),
    {
        let ghost before = self.items@;
        let r = self.items.pop();
        assert(layouts(self.items@) =~= layouts(before).drop_last());
        r.unwrap()
    }

    /// A copy of the piece at `i`.
    pub fn at(&self, i: usize) -> (r: Ir)
        requires
            i < self@.len(),
        ensures
            r@ == self@[i as int],
    {
        self.items[i].clone()
    }

    /// Puts `ir` in the place of the piece at `i`.
    pub fn set(&mut self, i: usize, ir: Ir)
        requires
            i < old(self)@.len(),
        ensures
            final(self)@ == old(self)@.update(i as int, ir@),
    {
        let ghost before = self.items@;
        self.items.set(i, ir);
        assert(layouts(self.items@) =~= layouts(before).update(i as int, ir@));
    }

    /// Moves the pieces of `other` to the end of this list.
    pub fn extend(&mut self, other: IrList)
        ensures
            final(self)@ == old(self)@ + other@,
    {
        let ghost before = self.items@;
        let ghost tail = other.items@;
        let mut rest = other.items;
        self.items.append(&mut rest);
        assert(self.items@ =~= before + tail);
        assert(layouts(self.items@) =~= layouts(before) + layouts(tail));
    }

    /// The whole list, leaving this one empty.
    pub fn take(&mut self) -> (r: IrList)
        ensures
            r@ == old(self)@,
            final(self)@ == Seq::<Layout>::empty(),
    {
        let mut other: Vec<Ir> = Vec::new();
        core::mem::swap(&mut other, &mut self.items);
        assert(layouts(self.items@) =~= Seq::<Layout>::empty());
        IrList { items: other }
    }

    pub fn copy(&self) -> (r: IrList)
        ensures
            r@ == self@,
    {
        IrList { items: clone_list(&self.items) }
    }

    /// The pieces with `sep` between neighbours.
    pub fn interleaved(sep: Ir, parts: IrList) -> (r: IrList)
        ensures
            r@ == interleave(sep@, parts@),
    {
        let mut list = IrList::new();
        let ghost all = parts.items@;
        for part in it: parts.items.into_iter()
            invariant
                it.seq() == all,
                list@ == interleave(sep@, layouts(all).take(it.index())),
        {
            proof {
                let i = it.index();
                assert(layouts(all).take(i + 1).drop_last() =~= layouts(all).take(i));
                assert(layouts(all).take(0) =~= Seq::<Layout>::empty());
                assert(i == 0 ==> layouts(all).take(1) =~= seq![layouts(all)[0]]);
                assert(i == 0 ==> list@.push(layouts(all)[0]) =~= seq![layouts(all)[0]]);
                if i > 0 {
                    lemma_interleave_len(sep@, layouts(all).take(i));
                }
            }
            if !list.is_empty() {
                list.push(sep.clone());
            }
            list.push(part);
        }
        assert(layouts(all).take(all.len() as int) =~= layouts(all));
        list
    }
}

/// Whether `text` holds a line feed.
pub open spec fn has_newline(text: Seq<char>) -> bool {
    text.contains('\n')
}

/// What concatenating `parts` gives: the empty parts dropped, nothing when no part is left,
/// the part itself when one is left.
pub open spec fn concat(parts: Seq<Layout>) -> Layout {
    let list = kept(parts);
    if list.len() == 0 {
        Layout::Nil
    } else if list.len() == 1 {
        list[0]
    } else {
        Layout::Concat(list)
    }
}

/// The parts that are not empty, in order.
pub open spec fn kept(parts: Seq<Layout>) -> Seq<Layout>
    decreases parts.len(),
{
    if parts.len() == 0 {
        parts
    } else if parts.last() is Nil {
        kept(parts.drop_last())
    } else {
        kept(parts.drop_last()).push(parts.last())
    }
}

pub open spec fn verbatim(text: Seq<char>) -> Layout {
    Layout::Verbatim { text, force_break: has_newline(text) }
}

/// The single space that a gap is written as.
pub open spec fn space() -> Layout {
    Layout::Verbatim { text: seq![' '], force_break: false }
}

pub open spec fn concat2(a: Layout, b: Layout) -> Layout {
    concat(seq![a, b])
}

pub open spec fn concat3(a: Layout, b: Layout, c: Layout) -> Layout {
    concat(seq![a, b, c])
}

pub open spec fn concat4(a: Layout, b: Layout, c: Layout, d: Layout) -> Layout {
    concat(seq![a, b, c, d])
}

pub open spec fn indent(body: Layout) -> Layout {
    Layout::Indent(Box::new(body))
}

pub open spec fn align(width: int, body: Layout) -> Layout {
    Layout::Align { width, body: Box::new(body) }
}

pub open spec fn group(body: Layout) -> Layout {
    Layout::Group(Box::new(body))
}

pub open spec fn if_break(flat: Layout, broken: Layout) -> Layout {
    Layout::IfBreak { flat: Box::new(flat), broken: Box::new(broken) }
}

/// The parts with `sep` between neighbours.
pub open spec fn interleave(sep: Layout, parts: Seq<Layout>) -> Seq<Layout>
    decreases parts.len(),
{
    if parts.len() <= 1 {
        parts
    } else {
        interleave(sep, parts.drop_last()).push(sep).push(parts.last())
    }
}

/// Whether a piece breaks its line in every mode. Where a piece has a flat and a broken form,
/// the flat form decides.
pub open spec fn forces_break(l: Layout) -> bool
    decreases l,
{
    match l {
        Layout::HardLine => true,
        Layout::EmptyLine => true,
        Layout::Verbatim { text: _, force_break } => force_break,
        Layout::Concat(items) => any_breaks(items),
        Layout::Fill(items) => any_breaks(items),
        Layout::HugFill(items) => any_breaks(items),
        Layout::StickyFill(items) => any_breaks(items),
        Layout::PreferredFill { atoms, preferred: _, target: _ } => any_breaks(atoms),
        Layout::Candidates(items) => items.len() > 0 && forces_break(items[0]),
        Layout::Group(body) => forces_break(*body),
        Layout::HugGroup(body) => forces_break(*body),
        Layout::Indent(body) => forces_break(*body),
        Layout::AlignCurrent(body) => forces_break(*body),
        Layout::DocMargin(body) => forces_break(*body),
        Layout::Align { width: _, body } => forces_break(*body),
        Layout::BoundedAlign { aligned, hanging: _ } => forces_break(*aligned),
        Layout::IfBreak { flat, broken: _ } => forces_break(*flat),
        Layout::MarginPrefix { margin: _, body } => forces_break(*body),
        _ => false,
    }
}

/// Whether some piece of a list breaks its line in every mode.
pub open spec fn any_breaks(items: Seq<Layout>) -> bool
    decreases items,
{
    items.len() > 0 && (any_breaks(items.drop_last()) || forces_break(items.last()))
}

/// What the pieces of a list read, one after the other.
pub open spec fn flat_joined(items: Seq<Layout>) -> Seq<char>
    decreases items,
{
    if items.len() == 0 {
        Seq::<char>::empty()
    } else {
        flat_joined(items.drop_last()) + flat_text(items.last())
    }
}

/// What the pieces of a list read, with one space between neighbours.
pub open spec fn flat_spaced(items: Seq<Layout>) -> Seq<char>
    decreases items,
{
    if items.len() == 0 {
        Seq::<char>::empty()
    } else if items.len() == 1 {
        flat_text(items.last())
    } else {
        flat_spaced(items.drop_last()).push(' ') + flat_text(items.last())
    }
}

/// What a piece reads when none of its gaps is broken. A forced break reads as a space.
pub open spec fn flat_text(l: Layout) -> Seq<char>
    decreases l,
{
    match l {
        Layout::Nil => Seq::<char>::empty(),
        Layout::SoftLine => Seq::<char>::empty(),
        Layout::TightLine => Seq::<char>::empty(),
        Layout::Text(text) => text,
        Layout::ZeroWidth(text) => text,
        Layout::ColumnZero(text) => text,
        Layout::Verbatim { text, force_break: _ } => text,
        Layout::Line => seq![' '],
        Layout::HardLine => seq![' '],
        Layout::EmptyLine => seq![' '],
        Layout::Concat(items) => flat_joined(items),
        Layout::HugFill(items) => flat_joined(items),
        Layout::StickyFill(items) => flat_joined(items),
        Layout::Fill(items) => flat_spaced(items),
        Layout::PreferredFill { atoms, preferred: _, target: _ } => flat_spaced(atoms),
        Layout::Candidates(items) => if items.len() > 0 { flat_text(items[0]) } else { Seq::<char>::empty() },
        Layout::Group(body) => flat_text(*body),
        Layout::HugGroup(body) => flat_text(*body),
        Layout::Indent(body) => flat_text(*body),
        Layout::AlignCurrent(body) => flat_text(*body),
        Layout::DocMargin(body) => flat_text(*body),
        Layout::Align { width: _, body } => flat_text(*body),
        Layout::BoundedAlign { aligned, hanging: _ } => flat_text(*aligned),
        Layout::IfBreak { flat, broken: _ } => flat_text(*flat),
        Layout::MarginPrefix { margin: _, body } => flat_text(*body),
    }
}

proof fn lemma_kept(parts: Seq<Layout>)
    ensures
        flat_joined(kept(parts)) == flat_joined(parts),
    decreases parts.len(),
{
    if parts.len() > 0 {
        lemma_kept(parts.drop_last());
        if parts.last() is Nil {
            assert(flat_text(Layout::Nil) =~= Seq::<char>::empty());
            assert(flat_joined(parts) == flat_joined(parts.drop_last()) + flat_text(parts.last()));
            assert(flat_joined(parts) =~= flat_joined(parts.drop_last()));
        } else {
            let list = kept(parts.drop_last()).push(parts.last());
            assert(list.drop_last() =~= kept(parts.drop_last()));
        }
    }
}

/// A concatenation reads what its parts read, one after the other.
pub(crate) proof fn lemma_concat_reads(parts: Seq<Layout>)
    ensures
        flat_text(concat(parts)) == flat_joined(parts),
{
    lemma_kept(parts);
    let list = kept(parts);
    if list.len() == 1 {
        assert(list.drop_last() =~= Seq::<Layout>::empty());
        assert(flat_joined(list.drop_last()) =~= Seq::<char>::empty());
        assert(flat_joined(list) =~= flat_text(list[0]));
    }
}

/// Whether `text` holds a line feed.
pub fn contains_newline(text: &str) -> (b: bool)
    ensures
        b == has_newline(text@),
{
    let n: usize = text.unicode_len();
    let mut i: usize = 0;
    while i < n
        invariant
            n == text@.len(),
            i <= n,
            forall|k: int| 0 <= k < i ==> text@[k] != '\n',
        decreases n - i,
    {
        if text.get_char(i) == '\n' {
            assert(text@[i as int] == '\n');
            return true;
        }
        i = i + 1;
    }
    false
}

fn list_forces_break(items: &Vec<Ir>) -> (b: bool)
    ensures
        b == any_breaks(layouts(items@)),
    decreases items, 0int,
{
    let mut i: usize = 0;
    let mut found = false;
    while i < items.len()
        invariant
            i <= items.len(),
            found == any_breaks(layouts(items@).take(i as int)),
        decreases items.len() - i,
    {
        assert(decreases_to!(items => items@[i as int]));
        assert(layouts(items@).take(i as int + 1).drop_last() =~= layouts(items@).take(i as int));
        let here = items[i].contains_forced_break();
        found = found || here;
        i = i + 1;
    }
    assert(layouts(items@).take(i as int) =~= layouts(items@));
    found
}

fn list_flat_joined(items: &Vec<Ir>) -> (r: String)
    ensures
        r@ == flat_joined(layouts(items@)),
    decreases items, 0int,
{
    let mut out = String::new();
    let mut i: usize = 0;
    while i < items.len()
        invariant
            i <= items.len(),
            out@ == flat_joined(layouts(items@).take(i as int)),
        decreases items.len() - i,
    {
        assert(decreases_to!(items => items@[i as int]));
        assert(layouts(items@).take(i as int + 1).drop_last() =~= layouts(items@).take(i as int));
        let text = items[i].print_flat();
        out.append(text.as_str());
        i = i + 1;
    }
    assert(layouts(items@).take(i as int) =~= layouts(items@));
    out
}

fn list_flat_spaced(items: &Vec<Ir>) -> (r: String)
    ensures
        r@ == flat_spaced(layouts(items@)),
    decreases items, 0int,
{
    let mut out = String::new();
    let mut i: usize = 0;
    while i < items.len()
        invariant
            i <= items.len(),
            out@ == flat_spaced(layouts(items@).take(i as int)),
        decreases items.len() - i,
    {
        assert(decreases_to!(items => items@[i as int]));
        assert(layouts(items@).take(i as int + 1).drop_last() =~= layouts(items@).take(i as int));
        proof {
            reveal_strlit(" ");
            assert(" "@ =~= seq![' ']);
        }
        let ghost before = out@;
        let text = items[i].print_flat();
        if i > 0 {
            out.append(" ");
            assert(out@ =~= before.push(' '));
        }
        out.append(text.as_str());
        assert(i == 0 ==> out@ =~= text@);
        i = i + 1;
    }
    assert(layouts(items@).take(i as int) =~= layouts(items@));
    out
}

impl Ir {
    /// Source text as it stands.
    pub fn verbatim(text: &str) -> (r: Ir)
        ensures
            r@ == verbatim(text@),
    {
        let force_break = contains_newline(text);
        Ir::Verbatim { text: text.to_owned(), force_break }
    }

    /// The single space that a gap is written as.
    pub fn space() -> (r: Ir)
        ensures
            r@ == space(),
    {
        proof {
            reveal_strlit(" ");
            assert(" "@ =~= seq![' ']);
        }
        Ir::Verbatim { text: " ".to_owned(), force_break: false }
    }

    pub fn text_space() -> (r: Ir)
        ensures
            r@ == Layout::Text(seq![' ']),
    {
        proof {
            reveal_strlit(" ");
            assert(" "@ =~= seq![' ']);
        }
        Ir::Text(" ".to_owned())
    }

    pub fn is_nil(&self) -> (b: bool)
        ensures
            b == (self@ is Nil),
    {
        match self {
            Ir::Nil => true,
            _ => false,
        }
    }

    /// The parts one after the other, the empty ones dropped.
    pub fn concat(parts: IrList) -> (r: Ir)
        ensures
            r@ == concat(parts@),
    {
        let ghost all = parts.items@;
        let mut list = IrList::new();
        for part in it: parts.items.into_iter()
            invariant
                it.seq() == all,
                list@ == kept(layouts(all).take(it.index())),
        {
            proof {
                let i = it.index();
                assert(layouts(all).take(i + 1).drop_last() =~= layouts(all).take(i));
            }
            if !part.is_nil() {
                list.push(part);
            }
        }
        assert(layouts(all).take(all.len() as int) =~= layouts(all));
        if list.len() == 0 {
            Ir::Nil
        } else if list.len() == 1 {
            list.pop()
        } else {
            let r = Ir::Concat(list.items);
            proof {
                lemma_list_view(list.items);
            }
            r
        }
    }

    pub fn concat2(a: Ir, b: Ir) -> (r: Ir)
        ensures
            r@ == concat2(a@, b@),
    {
        let mut parts = IrList::new();
        parts.push(a);
        parts.push(b);
        assert(parts@ =~= seq![a@, b@]);
        Ir::concat(parts)
    }

    pub fn concat3(a: Ir, b: Ir, c: Ir) -> (r: Ir)
        ensures
            r@ == concat3(a@, b@, c@),
    {
        let mut parts = IrList::new();
        parts.push(a);
        parts.push(b);
        parts.push(c);
        assert(parts@ =~= seq![a@, b@, c@]);
        Ir::concat(parts)
    }

    pub fn concat4(a: Ir, b: Ir, c: Ir, d: Ir) -> (r: Ir)
        ensures
            r@ == concat4(a@, b@, c@, d@),
    {
        let mut parts = IrList::new();
        parts.push(a);
        parts.push(b);
        parts.push(c);
        parts.push(d);
        assert(parts@ =~= seq![a@, b@, c@, d@]);
        Ir::concat(parts)
    }

    pub fn fill(parts: IrList) -> (r: Ir)
        ensures
            r@ == Layout::Fill(parts@),
    {
        let r = Ir::Fill(parts.items);
        proof {
            lemma_list_view(parts.items);
        }
        r
    }

    pub fn hug_fill(parts: IrList) -> (r: Ir)
        ensures
            r@ == Layout::HugFill(parts@),
    {
        let r = Ir::HugFill(parts.items);
        proof {
            lemma_list_view(parts.items);
        }
        r
    }

    pub fn sticky_fill(parts: IrList) -> (r: Ir)
        ensures
            r@ == Layout::StickyFill(parts@),
    {
        let r = Ir::StickyFill(parts.items);
        proof {
            lemma_list_view(parts.items);
        }
        r
    }

    pub fn preferred_fill(atoms: IrList, preferred: Vec<bool>, target: usize) -> (r: Ir)
        ensures
            r@ == (Layout::PreferredFill { atoms: atoms@, preferred: preferred@, target: target as int }),
    {
        let r = Ir::PreferredFill { atoms: atoms.items, preferred, target };
        proof {
            lemma_preferred_view(atoms.items, preferred, target);
        }
        r
    }

    /// The first candidate whose every line fits, else the last.
    pub fn candidates(parts: IrList) -> (r: Ir)
        ensures
            r@ == Layout::Candidates(parts@),
    {
        let r = Ir::Candidates(parts.items);
        proof {
            lemma_list_view(parts.items);
        }
        r
    }

    pub fn indent(body: Ir) -> (r: Ir)
        ensures
            r@ == indent(body@),
    {
        Ir::Indent(Box::new(body))
    }

    pub fn group(body: Ir) -> (r: Ir)
        ensures
            r@ == group(body@),
    {
        Ir::Group(Box::new(body))
    }

    pub fn hug_group(body: Ir) -> (r: Ir)
        ensures
            r@ == Layout::HugGroup(Box::new(body@)),
    {
        Ir::HugGroup(Box::new(body))
    }

    pub fn align(width: usize, body: Ir) -> (r: Ir)
        ensures
            r@ == align(width as int, body@),
    {
        Ir::Align { width, body: Box::new(body) }
    }

    pub fn align_current(body: Ir) -> (r: Ir)
        ensures
            r@ == Layout::AlignCurrent(Box::new(body@)),
    {
        Ir::AlignCurrent(Box::new(body))
    }

    pub fn bounded_align(aligned: Ir, hanging: Ir) -> (r: Ir)
        ensures
            r@ == (Layout::BoundedAlign { aligned: Box::new(aligned@), hanging: Box::new(hanging@) }),
    {
        Ir::BoundedAlign { aligned: Box::new(aligned), hanging: Box::new(hanging) }
    }

    pub fn if_break(flat: Ir, broken: Ir) -> (r: Ir)
        ensures
            r@ == if_break(flat@, broken@),
    {
        Ir::IfBreak { flat: Box::new(flat), broken: Box::new(broken) }
    }

    pub fn margin_prefix(margin: &str, body: Ir) -> (r: Ir)
        ensures
            r@ == (Layout::MarginPrefix { margin: margin@, body: Box::new(body@) }),
    {
        Ir::MarginPrefix { margin: margin.to_owned(), body: Box::new(body) }
    }

    pub fn doc_margin(body: Ir) -> (r: Ir)
        ensures
            r@ == Layout::DocMargin(Box::new(body@)),
    {
        Ir::DocMargin(Box::new(body))
    }

    pub fn column_zero(text: &str) -> (r: Ir)
        ensures
            r@ == Layout::ColumnZero(text@),
    {
        Ir::ColumnZero(text.to_owned())
    }

    pub fn zero_width(text: &str) -> (r: Ir)
        ensures
            r@ == Layout::ZeroWidth(text@),
    {
        Ir::ZeroWidth(text.to_owned())
    }

    /// The parts with `sep` between neighbours, concatenated.
    pub fn join(sep: Ir, parts: IrList) -> (r: Ir)
        ensures
            r@ == concat(interleave(sep@, parts@)),
    {
        Ir::concat(IrList::interleaved(sep, parts))
    }

    /// Whether this piece breaks its line in every mode.
    pub fn contains_forced_break(&self) -> (b: bool)
        ensures
            b == forces_break(self@),
        decreases self, 1int,
    {
        proof {
            match self {
                Ir::Concat(items) => lemma_list_view(*items),
                Ir::Fill(items) => lemma_list_view(*items),
                Ir::HugFill(items) => lemma_list_view(*items),
                Ir::StickyFill(items) => lemma_list_view(*items),
                Ir::Candidates(items) => lemma_list_view(*items),
                Ir::PreferredFill { atoms, preferred, target } => lemma_preferred_view(*atoms, *preferred, *target),
                _ => {},
            }
        }
        match self {
            Ir::HardLine => true,
            Ir::EmptyLine => true,
            Ir::Verbatim { text: _, force_break } => *force_break,
            Ir::Concat(items) => list_forces_break(items),
            Ir::Fill(items) => list_forces_break(items),
            Ir::HugFill(items) => list_forces_break(items),
            Ir::StickyFill(items) => list_forces_break(items),
            Ir::PreferredFill { atoms, preferred: _, target: _ } => list_forces_break(atoms),
            Ir::Candidates(items) => {
                if items.len() > 0 {
                    assert(decreases_to!(items => items@[0]));
                    items[0].contains_forced_break()
                } else {
                    false
                }
            },
            Ir::Group(body) => body.contains_forced_break(),
            Ir::HugGroup(body) => body.contains_forced_break(),
            Ir::Indent(body) => body.contains_forced_break(),
            Ir::AlignCurrent(body) => body.contains_forced_break(),
            Ir::DocMargin(body) => body.contains_forced_break(),
            Ir::Align { width: _, body } => body.contains_forced_break(),
            Ir::BoundedAlign { aligned, hanging: _ } => aligned.contains_forced_break(),
            Ir::IfBreak { flat, broken: _ } => flat.contains_forced_break(),
            Ir::MarginPrefix { margin: _, body } => body.contains_forced_break(),
            _ => false,
        }
    }

    /// What this piece reads when none of its gaps is broken.
    pub fn print_flat(&self) -> (r: String)
        ensures
            r@ == flat_text(self@),
        decreases self, 1int,
    {
        proof {
            reveal_strlit(" ");
            assert(" "@ =~= seq![' ']);
            match self {
                Ir::Concat(items) => lemma_list_view(*items),
                Ir::Fill(items) => lemma_list_view(*items),
                Ir::HugFill(items) => lemma_list_view(*items),
                Ir::StickyFill(items) => lemma_list_view(*items),
                Ir::Candidates(items) => lemma_list_view(*items),
                Ir::PreferredFill { atoms, preferred, target } => lemma_preferred_view(*atoms, *preferred, *target),
                _ => {},
            }
        }
        match self {
            Ir::Nil => String::new(),
            Ir::SoftLine => String::new(),
            Ir::TightLine => String::new(),
            Ir::Text(text) => text.clone(),
            Ir::ZeroWidth(text) => text.clone(),
            Ir::ColumnZero(text) => text.clone(),
            Ir::Verbatim { text, force_break: _ } => text.clone(),
            Ir::Line => " ".to_owned(),
            Ir::HardLine => " ".to_owned(),
            Ir::EmptyLine => " ".to_owned(),
            Ir::Concat(items) => list_flat_joined(items),
            Ir::HugFill(items) => list_flat_joined(items),
            Ir::StickyFill(items) => list_flat_joined(items),
            Ir::Fill(items) => list_flat_spaced(items),
            Ir::PreferredFill { atoms, preferred: _, target: _ } => list_flat_spaced(atoms),
            Ir::Candidates(items) => {
                if items.len() > 0 {
                    assert(decreases_to!(items => items@[0]));
                    items[0].print_flat()
                } else {
                    String::new()
                }
            },
            Ir::Group(body) => body.print_flat(),
            Ir::HugGroup(body) => body.print_flat(),
            Ir::Indent(body) => body.print_flat(),
            Ir::AlignCurrent(body) => body.print_flat(),
            Ir::DocMargin(body) => body.print_flat(),
            Ir::Align { width: _, body } => body.print_flat(),
            Ir::BoundedAlign { aligned, hanging: _ } => aligned.print_flat(),
            Ir::IfBreak { flat, broken: _ } => flat.print_flat(),
            Ir::MarginPrefix { margin: _, body } => body.print_flat(),
        }
    }
}

proof fn lemma_interleave_len(sep: Layout, parts: Seq<Layout>)
    ensures
        interleave(sep, parts).len() >= parts.len(),
    decreases parts.len(),
{
    if parts.len() > 1 {
        lemma_interleave_len(sep, parts.drop_last());
    }
}

/// Pieces and separators stand in turn.
pub proof fn separators_stand_between_pieces(sep: Layout, parts: Seq<Layout>)
    ensures
        parts.len() == 0 ==> interleave(sep, parts).len() == 0,
        parts.len() > 0 ==> interleave(sep, parts).len() == 2 * parts.len() - 1,
        forall|i: int| 0 <= i < parts.len() ==> #[trigger] parts[i] == interleave(sep, parts)[2 * i],
        forall|j: int| 0 < j < interleave(sep, parts).len() && j % 2 == 1 ==> #[trigger] interleave(sep, parts)[j] == sep,
    decreases parts.len(),
{
    if parts.len() > 1 {
        let before = parts.drop_last();
        separators_stand_between_pieces(sep, before);
        assert forall|i: int| 0 <= i < parts.len() implies #[trigger] parts[i] == interleave(sep, parts)[2 * i] by {
            if i < before.len() {
                assert(before[i] == parts[i]);
            }
        }
    }
}

} // verus!

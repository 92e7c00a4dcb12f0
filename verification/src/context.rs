//! What every step of the lowering knows of the document.

use vstd::prelude::*;

use crate::regions::{covered, enclosed, in_spans, ordered, overlaps_spans, touched, within_spans};
use crate::settings::{FormatStyle, ItemIndent, MathWrap, WrapMode};
use crate::signatures::{CommandSig, EnvSig, Scope};
use crate::syntax::{Span, SyntaxKind, Tree, WordAtom};

verus! {

/// Two neighbouring words between which a sentence ends.
pub struct Boundary {
    pub word: String,
    pub next: String,
}

/// What is bound to a run: its layout, and where its sentences end.
pub struct FormatContext<'a> {
    style: FormatStyle,
    sentence: &'a Vec<Boundary>,
}

impl<'a> FormatContext<'a> {
    pub closed spec fn style_of(&self) -> FormatStyle {
        self.style
    }

    pub closed spec fn sentence_of(&self) -> &'a Vec<Boundary> {
        self.sentence
    }

    pub fn with_sentence(style: FormatStyle, sentence: &'a Vec<Boundary>) -> (r: FormatContext<'a>)
        ensures
            r.style_of() == style,
            r.sentence_of() == sentence,
    {
        FormatContext { style, sentence }
    }

    pub fn style(&self) -> (r: FormatStyle)
        ensures
            r == self.style_of(),
    {
        self.style
    }

    pub fn sentence(&self) -> (r: &'a Vec<Boundary>)
        ensures
            r == self.sentence_of(),
    {
        self.sentence
    }
}

/// What every step of the lowering knows of the document.
#[derive(Clone, Copy)]
pub struct LowerCtx<'a> {
    pub t: &'a Tree,
    pub wrap: WrapMode,
    pub item_indent: ItemIndent,
    pub indent_width: usize,
    pub math_wrap: MathWrap,
    /// The line width that [`WrapMode::Stable`] aims at.
    pub stable_target: usize,
    pub signatures: Scope<'a>,
    /// The stretches of expl3 code, in order.
    pub regions: &'a Vec<Span>,
    /// The stretches whose layout the author has turned off.
    pub suppressed: &'a Vec<Span>,
    /// The pairs of words that a sentence ends between.
    pub boundaries: &'a Vec<Boundary>,
    /// The stretch to lay out, where it is not the whole document.
    pub range: Option<Span>,
    /// A documentation paragraph is being tried out, and keeps its margin.
    pub margin_probe: bool,
    /// Nested constructs of a documentation paragraph are reproduced as they stand.
    pub preserve_nested: bool,
    /// The margins of a documentation region are left out and put back around the whole.
    pub in_doc_region: bool,
    /// A table cell is being put on one line.
    pub in_cell: bool,
    /// The control symbol whose line feed the closing frame supplies.
    pub absorbed: Option<Span>,
    /// The comment that has been put before its statement.
    pub omitted: Option<Span>,
    /// The document has a documentation margin somewhere.
    pub is_dtx: bool,
}

/// Whether the atoms of a word of `len` characters follow one another from its start to its end.
pub open spec fn tile(letters: Seq<WordAtom>, len: int) -> bool {
    &&& letters.len() == 0 ==> len == 0
    &&& letters.len() > 0 ==> letters[0].start == 0 && letters.last().end == len
    &&& forall|i: int, j: int|
        #![trigger letters[i], letters[j]]
        0 <= i < j < letters.len() && j == i + 1 ==> letters[i].end == letters[j].start
}

/// Whether the math atoms of an element lie in its text. Those of a word make it up.
pub open spec fn letters_ok(t: &Tree, e: int) -> bool {
    let letters = t.elems@[e].facts.letters@;
    &&& forall|j: int| 0 <= j < letters.len() ==> (#[trigger] letters[j]).start <= letters[j].end <= t.txt(e).len()
    &&& t.tok_is(e, SyntaxKind::Word) ==> tile(letters, t.txt(e).len() as int)
}

/// The math atoms of every word make it up.
pub open spec fn letters_in_words(t: &Tree) -> bool {
    forall|e: int| 0 <= e < t.n() ==> #[trigger] letters_ok(t, e)
}

/// How many elements a subtree has.
pub open spec fn extent(t: &Tree, e: int) -> int {
    t.end(e) - e
}

/// Whether `fuel` is enough to follow the element, and each of its siblings, to the leaves.
pub open spec fn room(t: &Tree, e: int, fuel: nat) -> bool {
    0 <= e < t.n() && extent(t, e) < fuel && (e > 0 ==> extent(t, t.up(e)) <= fuel)
}

/// Whether `fuel` is enough for each element of a list.
pub open spec fn fits(t: &Tree, es: Seq<usize>, fuel: nat) -> bool {
    forall|i: int| 0 <= i < es.len() ==> room(t, #[trigger] es[i] as int, fuel)
}

/// Whether the elements of a list are elements of the tree.
pub open spec fn in_tree(t: &Tree, es: Seq<usize>) -> bool {
    forall|i: int| 0 <= i < es.len() ==> (#[trigger] es[i]) < t.n()
}

proof fn lemma_siblings(t: &Tree, p: int, i: int)
    requires
        t.wf(),
        0 <= p < i <= t.end(p),
        p < t.n(),
        i < t.end(p) ==> t.up(i) == p,
    ensures
        forall|k: int|
            0 <= k < t.siblings(i, t.end(p)).len() ==> {
                let c = #[trigger] t.siblings(i, t.end(p))[k];
                p < c < t.end(p) && t.up(c as int) == p
            },
    decreases t.end(p) - i,
{
    if i < t.end(p) {
        let j = t.end(i);
        assert(t.end(i) <= t.end(p));
        if j < t.end(p) {
            lemma_next_has_parent(t, i);
        }
        lemma_siblings(t, p, j);
        assert forall|k: int| 0 <= k < t.siblings(i, t.end(p)).len() implies {
            let c = #[trigger] t.siblings(i, t.end(p))[k];
            p < c < t.end(p) && t.up(c as int) == p
        } by {
            if k > 0 {
                assert(t.siblings(i, t.end(p))[k] == t.siblings(j, t.end(p))[k - 1]);
            }
        }
    }
}

/// The element behind a subtree has the parent of that subtree, unless the parent ends there.
pub proof fn lemma_next_has_parent(t: &Tree, i: int)
    requires
        t.wf(),
        0 < i < t.n(),
        t.end(i) < t.end(t.up(i)),
    ensures
        t.up(t.end(i)) == t.up(i),
{
    let p = t.up(i);
    let j = t.end(i);
    assert(t.end(p) <= t.n());
    assert(p < j < t.end(p));
    let q = t.up(j);
    assert(p <= q);
    assert(t.end(j) <= t.end(q));
    if q != p {
        if q < i {
            assert(i < t.end(q));
            assert(q <= t.up(i));
        } else if q == i {
        } else {
            assert(q < t.end(i));
            assert(t.end(q) <= t.end(i));
        }
    }
}

/// The children of a node lie in it, are its children, and need less fuel than it does.
pub proof fn lemma_kids(t: &Tree, n: int)
    requires
        t.wf(),
        0 <= n < t.n(),
    ensures
        forall|k: int|
            0 <= k < t.kids(n).len() ==> {
                let c = #[trigger] t.kids(n)[k];
                n < c < t.end(n) && t.up(c as int) == n && t.end(c as int) <= t.end(n)
            },
        forall|fuel: nat| #[trigger] room(t, n, fuel) ==> fuel > 0 && fits(t, t.kids(n), (fuel - 1) as nat) && fits(
            t,
            t.kids(n),
            fuel,
        ),
{
    if n + 1 < t.end(n) {
        assert(n <= t.up(n + 1));
    }
    lemma_siblings(t, n, n + 1);
    assert forall|k: int| 0 <= k < t.kids(n).len() implies {
        let c = #[trigger] t.kids(n)[k];
        n < c < t.end(n) && t.up(c as int) == n && t.end(c as int) <= t.end(n)
    } by {
        let c = t.siblings(n + 1, t.end(n))[k];
        assert(t.end(c as int) <= t.end(n));
    }
}

/// An element that is followed to its leaves takes fuel.
pub proof fn lemma_room_takes(cx: &LowerCtx, n: int, fuel: nat)
    requires
        cx.ok(),
        room(cx.t, n, fuel),
    ensures
        fuel > 0,
{
    reveal(LowerCtx::ok);
    assert(n < cx.t.end(n));
}

/// Whether an element of a list is a token of the given kind. There is none past the end.
pub open spec fn tok_at(t: &Tree, es: Seq<usize>, i: int, kind: SyntaxKind) -> bool {
    0 <= i < es.len() && t.tok_is(es[i] as int, kind)
}

/// Whether an element of a list is a node of the given kind.
pub open spec fn node_at(t: &Tree, es: Seq<usize>, i: int, kind: SyntaxKind) -> bool {
    0 <= i < es.len() && t.node_is(es[i] as int, kind)
}

/// Whether an element of a list is collapsible white space.
pub open spec fn gap_at(t: &Tree, es: Seq<usize>, i: int) -> bool {
    0 <= i < es.len() && t.gap(es[i] as int)
}

/// A stretch of a list of elements.
pub fn part(es: &Vec<usize>, lo: usize, hi: usize) -> (r: Vec<usize>)
    requires
        lo <= hi <= es@.len(),
    ensures
        r@ == es@.subrange(lo as int, hi as int),
{
    let mut out: Vec<usize> = Vec::new();
    let mut i: usize = lo;
    while i < hi
        invariant
            lo <= i <= hi <= es@.len(),
            out@ == es@.subrange(lo as int, i as int),
        decreases hi - i,
    {
        out.push(es[i]);
        assert(es@.subrange(lo as int, i + 1) =~= es@.subrange(lo as int, i as int).push(es@[i as int]));
        i = i + 1;
    }
    out
}

impl<'a> LowerCtx<'a> {
    /// The tree and the tables are as they say they are.
    #[verifier::opaque]
    pub open spec fn ok(&self) -> bool {
        self.t.wf() && ordered(self.regions@) && letters_in_words(self.t)
    }

    /// Whether paragraphs are laid out anew, and do not keep the breaks that they have.
    pub open spec fn wrapping(&self) -> bool {
        self.wrap != WrapMode::Preserve
    }

    pub fn wraps_prose(&self) -> (r: bool)
        ensures
            r == self.wrapping(),
    {
        match self.wrap {
            WrapMode::Reflow => true,
            WrapMode::Stable => true,
            WrapMode::Sentence => true,
            WrapMode::Semantic => true,
            WrapMode::Preserve => false,
        }
    }

    /// Whether the element's span is laid out by nobody.
    pub open spec fn off(&self, e: int) -> bool {
        enclosed(self.suppressed@, self.t.elems@[e].span)
    }

    /// Whether the layout of the element has been turned off: all of it lies in one stretch that
    /// the author has marked. An element that merely reaches into such a stretch is laid out.
    pub fn is_suppressed(&self, e: usize) -> (r: bool)
        requires
            e < self.t.n(),
        ensures
            r == self.off(e as int),
    {
        within_spans(self.suppressed, self.t.span(e))
    }

    /// Whether the element starts in expl3 code.
    pub open spec fn expl_at(&self, e: int) -> bool {
        covered(self.regions@, self.t.from(e))
    }

    pub fn in_expl3_region(&self, e: usize) -> (r: bool)
        requires
            self.ok(),
            e < self.t.n(),
        ensures
            r == self.expl_at(e as int),
    {
        proof {
            reveal(LowerCtx::ok);
        }
        in_spans(self.regions, self.t.span(e).start)
    }

    /// Whether the element reaches into expl3 code.
    pub open spec fn expl_in(&self, e: int) -> bool {
        touched(self.regions@, self.t.elems@[e].span)
    }

    pub fn overlaps_expl3(&self, e: usize) -> (r: bool)
        requires
            e < self.t.n(),
        ensures
            r == self.expl_in(e as int),
    {
        overlaps_spans(self.regions, self.t.span(e))
    }

    pub fn any_expl3(&self) -> (r: bool)
        ensures
            r == (self.regions@.len() > 0),
    {
        self.regions.len() > 0
    }

    /// The children of a node.
    pub fn children(&self, n: usize) -> (r: Vec<usize>)
        requires
            self.ok(),
            n < self.t.n(),
        ensures
            r@ == self.t.kids(n as int),
            in_tree(self.t, r@),
            forall|fuel: nat| #[trigger] room(self.t, n as int, fuel) ==> fuel > 0 && fits(
                self.t,
                r@,
                (fuel - 1) as nat,
            ) && fits(self.t, r@, fuel),
    {
        proof {
            reveal(LowerCtx::ok);
            lemma_kids(self.t, n as int);
        }
        self.t.children(n)
    }

    pub fn token_at(&self, es: &Vec<usize>, i: usize, kind: SyntaxKind) -> (r: bool)
        requires
            in_tree(self.t, es@),
        ensures
            r == tok_at(self.t, es@, i as int, kind),
    {
        i < es.len() && self.t.token_is(es[i], kind)
    }

    pub fn is_node_at(&self, es: &Vec<usize>, i: usize, kind: SyntaxKind) -> (r: bool)
        requires
            in_tree(self.t, es@),
        ensures
            r == node_at(self.t, es@, i as int, kind),
    {
        i < es.len() && self.t.is_node(es[i], kind)
    }

    pub fn is_gap_at(&self, es: &Vec<usize>, i: usize) -> (r: bool)
        requires
            in_tree(self.t, es@),
        ensures
            r == gap_at(self.t, es@, i as int),
    {
        i < es.len() && self.t.is_gap(es[i])
    }

    /// What is known of the command that a node is.
    pub open spec fn sig(&self, n: int) -> Option<CommandSig> {
        match self.t.elems@[n].facts.name {
            Some(name) => self.signatures.of_command(name@),
            None => None,
        }
    }

    pub fn command_sig(&self, n: usize) -> (r: Option<&'a CommandSig>)
        requires
            n < self.t.n(),
        ensures
            r is Some <==> self.sig(n as int) is Some,
            r matches Some(sig) ==> Some(*sig) == self.sig(n as int),
    {
        match &self.t.elems[n].facts.name {
            Some(name) => self.signatures.command(name.as_str()),
            None => None,
        }
    }

    /// What is known of the environment that a node is or begins.
    pub open spec fn env(&self, n: int) -> Option<EnvSig> {
        match self.t.elems@[n].facts.name {
            Some(name) => self.signatures.of_environment(name@),
            None => None,
        }
    }

    pub fn env_sig(&self, n: usize) -> (r: Option<&'a EnvSig>)
        requires
            n < self.t.n(),
        ensures
            r is Some <==> self.env(n as int) is Some,
            r matches Some(sig) ==> Some(*sig) == self.env(n as int),
    {
        match &self.t.elems[n].facts.name {
            Some(name) => self.signatures.environment(name.as_str()),
            None => None,
        }
    }
}

} // verus!

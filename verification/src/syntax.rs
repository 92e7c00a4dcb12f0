//! The concrete syntax tree that lowering reads.
//!
//! The tree is stored flat, in document order: an element stands before its children, and a
//! node's subtree is the run of elements from its own index up to its `end`. A reference to an
//! element is its index.

use vstd::prelude::*;

use crate::text::str_eq;

verus! {

/// What an element of the tree is.
#[derive(Clone, Copy, Debug, PartialEq, Eq, Structural)]
pub enum SyntaxKind {
    Root,
    Paragraph,
    Command,
    Group,
    Optional,
    NameGroup,
    Environment,
    Begin,
    End,
    InlineMath,
    DisplayMath,
    Math,
    Scripted,
    Subscript,
    Superscript,
    LeftRight,
    Conditional,
    ConditionalBranch,
    Statement,
    LineBreak,
    DocComment,
    Word,
    Whitespace,
    Newline,
    Comment,
    ControlWord,
    ControlSymbol,
    LBrace,
    RBrace,
    LBracket,
    RBracket,
    Dollar,
    Ampersand,
    Tilde,
    Hash,
    Caret,
    Underscore,
    Verb,
    VerbatimBody,
    DocMargin,
    Guard,
    Error,
}

impl SyntaxKind {
    /// What the kind is called in messages.
    pub open spec fn called(self) -> Seq<char> {
        match self {
            SyntaxKind::Root => "ROOT"@,
            SyntaxKind::Paragraph => "PARAGRAPH"@,
            SyntaxKind::Command => "COMMAND"@,
            SyntaxKind::Group => "GROUP"@,
            SyntaxKind::Optional => "OPTIONAL"@,
            SyntaxKind::NameGroup => "NAME_GROUP"@,
            SyntaxKind::Environment => "ENVIRONMENT"@,
            SyntaxKind::Begin => "BEGIN"@,
            SyntaxKind::End => "END"@,
            SyntaxKind::InlineMath => "INLINE_MATH"@,
            SyntaxKind::DisplayMath => "DISPLAY_MATH"@,
            SyntaxKind::Math => "MATH"@,
            SyntaxKind::Scripted => "SCRIPTED"@,
            SyntaxKind::Subscript => "SUBSCRIPT"@,
            SyntaxKind::Superscript => "SUPERSCRIPT"@,
            SyntaxKind::LeftRight => "LEFT_RIGHT"@,
            SyntaxKind::Conditional => "CONDITIONAL"@,
            SyntaxKind::ConditionalBranch => "CONDITIONAL_BRANCH"@,
            SyntaxKind::Statement => "STATEMENT"@,
            SyntaxKind::LineBreak => "LINE_BREAK"@,
            SyntaxKind::DocComment => "DOC_COMMENT"@,
            SyntaxKind::Word => "WORD"@,
            SyntaxKind::Whitespace => "WHITESPACE"@,
            SyntaxKind::Newline => "NEWLINE"@,
            SyntaxKind::Comment => "COMMENT"@,
            SyntaxKind::ControlWord => "CONTROL_WORD"@,
            SyntaxKind::ControlSymbol => "CONTROL_SYMBOL"@,
            SyntaxKind::LBrace => "L_BRACE"@,
            SyntaxKind::RBrace => "R_BRACE"@,
            SyntaxKind::LBracket => "L_BRACKET"@,
            SyntaxKind::RBracket => "R_BRACKET"@,
            SyntaxKind::Dollar => "DOLLAR"@,
            SyntaxKind::Ampersand => "AMPERSAND"@,
            SyntaxKind::Tilde => "TILDE"@,
            SyntaxKind::Hash => "HASH"@,
            SyntaxKind::Caret => "CARET"@,
            SyntaxKind::Underscore => "UNDERSCORE"@,
            SyntaxKind::Verb => "VERB"@,
            SyntaxKind::VerbatimBody => "VERBATIM_BODY"@,
            SyntaxKind::DocMargin => "DOC_MARGIN"@,
            SyntaxKind::Guard => "GUARD"@,
            SyntaxKind::Error => "ERROR"@,
        }
    }

    /// What the kind is called in messages.
    pub fn name(self) -> (r: &'static str)
        ensures
            r@ == self.called(),
    {
        match self {
            SyntaxKind::Root => "ROOT",
            SyntaxKind::Paragraph => "PARAGRAPH",
            SyntaxKind::Command => "COMMAND",
            SyntaxKind::Group => "GROUP",
            SyntaxKind::Optional => "OPTIONAL",
            SyntaxKind::NameGroup => "NAME_GROUP",
            SyntaxKind::Environment => "ENVIRONMENT",
            SyntaxKind::Begin => "BEGIN",
            SyntaxKind::End => "END",
            SyntaxKind::InlineMath => "INLINE_MATH",
            SyntaxKind::DisplayMath => "DISPLAY_MATH",
            SyntaxKind::Math => "MATH",
            SyntaxKind::Scripted => "SCRIPTED",
            SyntaxKind::Subscript => "SUBSCRIPT",
            SyntaxKind::Superscript => "SUPERSCRIPT",
            SyntaxKind::LeftRight => "LEFT_RIGHT",
            SyntaxKind::Conditional => "CONDITIONAL",
            SyntaxKind::ConditionalBranch => "CONDITIONAL_BRANCH",
            SyntaxKind::Statement => "STATEMENT",
            SyntaxKind::LineBreak => "LINE_BREAK",
            SyntaxKind::DocComment => "DOC_COMMENT",
            SyntaxKind::Word => "WORD",
            SyntaxKind::Whitespace => "WHITESPACE",
            SyntaxKind::Newline => "NEWLINE",
            SyntaxKind::Comment => "COMMENT",
            SyntaxKind::ControlWord => "CONTROL_WORD",
            SyntaxKind::ControlSymbol => "CONTROL_SYMBOL",
            SyntaxKind::LBrace => "L_BRACE",
            SyntaxKind::RBrace => "R_BRACE",
            SyntaxKind::LBracket => "L_BRACKET",
            SyntaxKind::RBracket => "R_BRACKET",
            SyntaxKind::Dollar => "DOLLAR",
            SyntaxKind::Ampersand => "AMPERSAND",
            SyntaxKind::Tilde => "TILDE",
            SyntaxKind::Hash => "HASH",
            SyntaxKind::Caret => "CARET",
            SyntaxKind::Underscore => "UNDERSCORE",
            SyntaxKind::Verb => "VERB",
            SyntaxKind::VerbatimBody => "VERBATIM_BODY",
            SyntaxKind::DocMargin => "DOC_MARGIN",
            SyntaxKind::Guard => "GUARD",
            SyntaxKind::Error => "ERROR",
        }
    }
}

/// A stretch of the source, from `start` up to `end`.
#[derive(Clone, Copy, Debug, PartialEq, Eq, Structural)]
pub struct Span {
    pub start: usize,
    pub end: usize,
}

/// What switching expl3 syntax on or off does.
#[derive(Clone, Copy, Debug, PartialEq, Eq, Structural)]
pub enum ExplToggle {
    On,
    Off,
}

/// One element of the tree.
pub struct Elem {
    pub kind: SyntaxKind,
    /// Whether the element is a token, which has text and no children.
    pub token: bool,
    /// The node that holds the element; the root holds itself.
    pub parent: usize,
    /// One past the last element of the subtree.
    pub end: usize,
    /// Where the element's text stands in the source.
    pub span: Span,
    /// The text of a token.
    pub text: String,
    /// What is known of the element beyond its shape.
    pub facts: Facts,
}

/// How a math atom is spaced.
#[derive(Clone, Copy, Debug, PartialEq, Eq, Structural)]
pub enum MathClass {
    Ord,
    Op,
    Bin,
    Rel,
    Open,
    Close,
    Punct,
    Inner,
}

/// What a math atom delimits.
#[derive(Clone, Copy, Debug, PartialEq, Eq, Structural)]
pub enum DelimiterRole {
    Open,
    Close,
    Fence,
}

/// The math atom that an element is.
#[derive(Clone, Copy, Debug, PartialEq, Eq, Structural)]
pub struct MathAtom {
    pub class: MathClass,
    pub delimiter: Option<DelimiterRole>,
}

/// One of the math atoms in a word: the characters from `start` up to `end`.
#[derive(Clone, Copy, Debug, PartialEq, Eq, Structural)]
pub struct WordAtom {
    pub atom: MathAtom,
    pub start: usize,
    pub end: usize,
}

/// How the cells of a column are aligned.
#[derive(Clone, Copy, Debug, PartialEq, Eq, Structural)]
pub enum ColAlign {
    Left,
    Center,
    Right,
}

/// What other analyses know of an element.
pub struct Facts {
    /// The name of a command without its backslash, or of an environment.
    pub name: Option<String>,
    /// What a control word does to expl3 syntax.
    pub toggle: Option<ExplToggle>,
    /// Whether a command takes the next control sequence as the one that it defines.
    pub defines_next: bool,
    /// Which declared argument of its command or environment a group fills.
    pub fills: Option<usize>,
    /// How many declared arguments are behind once a group has been taken.
    pub reached: usize,
    /// How many branches an expl3 conditional has.
    pub branches: Option<usize>,
    /// Whether an expl3 statement ends behind the element.
    pub ends_statement: bool,
    /// Whether the element is in an expl3 statement of unknown extent.
    pub fallback: bool,
    /// Whether the element stays with what stands before it in its expl3 statement.
    pub glued: bool,
    /// Whether the element stays with what stands before it in its picture statement.
    pub unit_glued: bool,
    /// The columns that a group specifies.
    pub columns: Option<Vec<ColAlign>>,
    /// The math atom that the element is.
    pub atom: MathAtom,
    /// The math atoms of a word.
    pub letters: Vec<WordAtom>,
}

impl Facts {
    /// Nothing is known.
    pub fn none() -> (r: Facts)
        ensures
            r.name is None,
            r.toggle is None,
            !r.defines_next,
            r.fills is None,
            r.reached == 0,
            r.branches is None,
            !r.ends_statement,
            !r.fallback,
            !r.glued,
            !r.unit_glued,
            r.columns is None,
            r.atom == (MathAtom { class: MathClass::Ord, delimiter: None }),
            r.letters@.len() == 0,
    {
        Facts {
            name: None,
            toggle: None,
            defines_next: false,
            fills: None,
            reached: 0,
            branches: None,
            ends_statement: false,
            fallback: false,
            glued: false,
            unit_glued: false,
            columns: None,
            atom: MathAtom { class: MathClass::Ord, delimiter: None },
            letters: Vec::new(),
        }
    }
}

/// A document's syntax tree.
pub struct Tree {
    pub elems: Vec<Elem>,
}

/// Whether `kind` is white space that layout may collapse.
pub open spec fn collapsible(kind: SyntaxKind) -> bool {
    kind == SyntaxKind::Whitespace || kind == SyntaxKind::Newline
}

/// Whether `kind` is white space that layout may collapse.
pub fn is_collapsible_trivia(kind: SyntaxKind) -> (b: bool)
    ensures
        b == collapsible(kind),
{
    kind == SyntaxKind::Whitespace || kind == SyntaxKind::Newline
}

impl Tree {
    /// The number of elements.
    pub open spec fn n(&self) -> int {
        self.elems@.len() as int
    }

    pub open spec fn k(&self, i: int) -> SyntaxKind {
        self.elems@[i].kind
    }

    pub open spec fn tok(&self, i: int) -> bool {
        self.elems@[i].token
    }

    /// Whether the element is a token of the given kind.
    pub open spec fn tok_is(&self, i: int, kind: SyntaxKind) -> bool {
        self.tok(i) && self.k(i) == kind
    }

    /// Whether the element is a node of the given kind.
    pub open spec fn node_is(&self, i: int, kind: SyntaxKind) -> bool {
        !self.tok(i) && self.k(i) == kind
    }

    /// Whether the element is a token of collapsible white space.
    pub open spec fn gap(&self, i: int) -> bool {
        self.tok(i) && collapsible(self.k(i))
    }

    pub open spec fn up(&self, i: int) -> int {
        self.elems@[i].parent as int
    }

    pub open spec fn end(&self, i: int) -> int {
        self.elems@[i].end as int
    }

    pub open spec fn from(&self, i: int) -> int {
        self.elems@[i].span.start as int
    }

    pub open spec fn to(&self, i: int) -> int {
        self.elems@[i].span.end as int
    }

    pub open spec fn txt(&self, i: int) -> Seq<char> {
        self.elems@[i].text@
    }

    /// The tree is laid out as its fields say: subtrees nest, and the tokens' spans follow one
    /// another through the source.
    pub open spec fn wf(&self) -> bool {
        &&& self.n() > 0
        &&& self.up(0) == 0
        &&& !self.tok(0)
        &&& self.end(0) == self.n()
        &&& forall|i: int| 0 <= i < self.n() ==> i < #[trigger] self.end(i) <= self.n()
        &&& forall|i: int| 0 <= i < self.n() && #[trigger] self.tok(i) ==> self.end(i) == i + 1 && self.from(i) < self.to(i)
        &&& forall|i: int| 0 < i < self.n() ==> 0 <= #[trigger] self.up(i) < i && !self.tok(self.up(i)) && self.end(i) <= self.end(self.up(i))
        &&& forall|i: int, j: int|
            #![trigger self.end(i), self.end(j)]
            0 <= i < j < self.n() && j < self.end(i) ==> self.end(j) <= self.end(i)
        &&& forall|i: int, j: int|
            #![trigger self.end(i), self.up(j)]
            0 <= i < j < self.n() && j < self.end(i) ==> i <= self.up(j)
        &&& forall|i: int| 0 <= i < self.n() ==> #[trigger] self.from(i) <= self.to(i)
        &&& forall|i: int, j: int|
            #![trigger self.end(i), self.from(j)]
            0 <= i < j < self.n() && j < self.end(i) ==> self.from(i) <= self.from(j) && self.to(j) <= self.to(i)
        &&& forall|i: int, j: int|
            #![trigger self.to(i), self.from(j)]
            0 <= i < j < self.n() && self.end(i) <= j ==> self.to(i) <= self.from(j)
    }

    // ---- reading -------------------------------------------------------------------------

    pub fn len(&self) -> (r: usize)
        ensures
            r == self.n(),
    {
        self.elems.len()
    }

    pub fn kind(&self, i: usize) -> (r: SyntaxKind)
        requires
            i < self.n(),
        ensures
            r == self.k(i as int),
    {
        self.elems[i].kind
    }

    pub fn is_token(&self, i: usize) -> (r: bool)
        requires
            i < self.n(),
        ensures
            r == self.tok(i as int),
    {
        self.elems[i].token
    }

    pub fn token_is(&self, i: usize, kind: SyntaxKind) -> (r: bool)
        requires
            i < self.n(),
        ensures
            r == self.tok_is(i as int, kind),
    {
        self.elems[i].token && self.elems[i].kind == kind
    }

    pub fn is_node(&self, i: usize, kind: SyntaxKind) -> (r: bool)
        requires
            i < self.n(),
        ensures
            r == self.node_is(i as int, kind),
    {
        !self.elems[i].token && self.elems[i].kind == kind
    }

    pub fn is_gap(&self, i: usize) -> (r: bool)
        requires
            i < self.n(),
        ensures
            r == self.gap(i as int),
    {
        self.elems[i].token && is_collapsible_trivia(self.elems[i].kind)
    }

    pub fn parent(&self, i: usize) -> (r: usize)
        requires
            i < self.n(),
        ensures
            r == self.up(i as int),
    {
        self.elems[i].parent
    }

    pub fn subtree_end(&self, i: usize) -> (r: usize)
        requires
            i < self.n(),
        ensures
            r == self.end(i as int),
    {
        self.elems[i].end
    }

    pub fn span(&self, i: usize) -> (r: Span)
        requires
            i < self.n(),
        ensures
            r == self.elems@[i as int].span,
            r.start == self.from(i as int),
            r.end == self.to(i as int),
    {
        self.elems[i].span
    }

    /// The text of a token.
    pub fn text(&self, i: usize) -> (r: &str)
        requires
            i < self.n(),
        ensures
            r@ == self.txt(i as int),
    {
        self.elems[i].text.as_str()
    }

    // ---- walking -------------------------------------------------------------------------

    /// The elements from `i` on that stand side by side up to `hi`.
    pub open spec fn siblings(&self, i: int, hi: int) -> Seq<usize>
        decreases hi - i,
    {
        if 0 <= i < hi && i < self.n() && i < self.end(i) <= hi {
            seq![i as usize] + self.siblings(self.end(i), hi)
        } else {
            Seq::empty()
        }
    }

    /// The children of a node, in order.
    pub open spec fn kids(&self, i: int) -> Seq<usize> {
        self.siblings(i + 1, self.end(i))
    }

    /// The children of a node, in order.
    pub fn children(&self, i: usize) -> (r: Vec<usize>)
        requires
            self.wf(),
            i < self.n(),
        ensures
            r@ == self.kids(i as int),
    {
        let mut out: Vec<usize> = Vec::new();
        let hi: usize = self.elems[i].end;
        let mut j: usize = i + 1;
        while j < hi
            invariant
                self.wf(),
                i < self.n(),
                hi == self.end(i as int),
                i < j,
                out@ + self.siblings(j as int, hi as int) == self.kids(i as int),
            decreases hi - j,
        {
            assert(i < self.end(i as int) <= self.n());
            let ghost before = out@;
            out.push(j);
            proof {
                assert(j < self.end(j as int) <= self.end(i as int));
                assert(before + (seq![j] + self.siblings(self.end(j as int), hi as int)) =~= out@ + self.siblings(
                    self.end(j as int),
                    hi as int,
                ));
            }
            j = self.elems[j].end;
        }
        proof {
            assert(self.siblings(j as int, hi as int) =~= Seq::empty());
            assert(out@ + Seq::empty() =~= out@);
        }
        out
    }

    /// The nearest token before element `i` in the document.
    pub open spec fn prev_tok(&self, i: int) -> Option<usize>
        decreases i,
    {
        if i <= 0 {
            None
        } else if self.tok(i - 1) {
            Some((i - 1) as usize)
        } else {
            self.prev_tok(i - 1)
        }
    }

    /// The nearest token before element `i` in the document.
    pub fn prev_token(&self, i: usize) -> (r: Option<usize>)
        requires
            i < self.n(),
        ensures
            r == self.prev_tok(i as int),
            r matches Some(j) ==> j < i && self.tok(j as int),
    {
        let mut j: usize = i;
        while j > 0
            invariant
                i < self.n(),
                j <= i,
                self.prev_tok(j as int) == self.prev_tok(i as int),
            decreases j,
        {
            if self.elems[j - 1].token {
                return Some(j - 1);
            }
            j = j - 1;
        }
        None
    }

    /// The first token at or after element `i` and before `hi`.
    pub open spec fn first_tok(&self, i: int, hi: int) -> Option<usize>
        decreases hi - i,
    {
        if !(0 <= i < hi && i < self.n()) {
            None
        } else if self.tok(i) {
            Some(i as usize)
        } else {
            self.first_tok(i + 1, hi)
        }
    }

    /// The first token at or after element `i` and before `hi`.
    pub fn first_token_in(&self, i: usize, hi: usize) -> (r: Option<usize>)
        requires
            hi <= self.n(),
        ensures
            r == self.first_tok(i as int, hi as int),
            r matches Some(j) ==> i <= j < hi && self.tok(j as int),
    {
        let mut j: usize = i;
        while j < hi
            invariant
                hi <= self.n(),
                i <= j,
                self.first_tok(j as int, hi as int) == self.first_tok(i as int, hi as int),
            decreases hi - j,
        {
            if self.elems[j].token {
                return Some(j);
            }
            j = j + 1;
        }
        None
    }

    /// The first token of the element.
    pub open spec fn head(&self, i: int) -> Option<usize> {
        self.first_tok(i, self.end(i))
    }

    pub fn first_token(&self, i: usize) -> (r: Option<usize>)
        requires
            self.wf(),
            i < self.n(),
        ensures
            r == self.head(i as int),
            r matches Some(j) ==> i <= j < self.end(i as int) && self.tok(j as int),
    {
        self.first_token_in(i, self.elems[i].end)
    }

    /// The last token before `hi` and at or after `i`.
    pub open spec fn last_tok(&self, i: int, hi: int) -> Option<usize>
        decreases hi - i,
    {
        if hi <= i || hi <= 0 {
            None
        } else if self.tok(hi - 1) {
            Some((hi - 1) as usize)
        } else {
            self.last_tok(i, hi - 1)
        }
    }

    /// The last token of the element.
    pub open spec fn tail(&self, i: int) -> Option<usize> {
        self.last_tok(i, self.end(i))
    }

    pub fn last_token(&self, i: usize) -> (r: Option<usize>)
        requires
            self.wf(),
            i < self.n(),
        ensures
            r == self.tail(i as int),
            r matches Some(j) ==> i <= j < self.end(i as int) && self.tok(j as int),
    {
        let mut j: usize = self.elems[i].end;
        assert(i < self.end(i as int) <= self.n());
        while j > i
            invariant
                i < self.n(),
                i <= j <= self.end(i as int) <= self.n(),
                self.last_tok(i as int, j as int) == self.tail(i as int),
            decreases j,
        {
            if self.elems[j - 1].token {
                return Some(j - 1);
            }
            j = j - 1;
        }
        None
    }

    /// The nearest token behind the element in the document.
    pub open spec fn next_tok(&self, i: int) -> Option<usize> {
        self.first_tok(self.end(i), self.n())
    }

    pub fn next_token(&self, i: usize) -> (r: Option<usize>)
        requires
            self.wf(),
            i < self.n(),
        ensures
            r == self.next_tok(i as int),
            r matches Some(j) ==> i < j < self.n() && self.tok(j as int),
    {
        assert(i < self.end(i as int) <= self.n());
        self.first_token_in(self.elems[i].end, self.elems.len())
    }

    /// The sibling just before element `i`, searched from `cur` on.
    pub open spec fn before(&self, cur: int, i: int) -> Option<usize>
        decreases i - cur,
    {
        if !(0 <= cur < i && cur < self.n() && cur < self.end(cur)) {
            None
        } else if self.end(cur) >= i {
            Some(cur as usize)
        } else {
            self.before(self.end(cur), i)
        }
    }

    /// The sibling just before element `i`.
    pub open spec fn prev_sib(&self, i: int) -> Option<usize> {
        if i <= 0 {
            None
        } else {
            self.before(self.up(i) + 1, i)
        }
    }

    pub fn prev_sibling(&self, i: usize) -> (r: Option<usize>)
        requires
            self.wf(),
            i < self.n(),
        ensures
            r == self.prev_sib(i as int),
            r matches Some(j) ==> j < i,
    {
        if i == 0 {
            return None;
        }
        let mut cur: usize = self.elems[i].parent + 1;
        while cur < i
            invariant
                self.wf(),
                0 < i < self.n(),
                self.before(cur as int, i as int) == self.prev_sib(i as int),
            decreases i - cur,
        {
            assert(cur < self.end(cur as int) <= self.n());
            if self.elems[cur].end >= i {
                return Some(cur);
            }
            cur = self.elems[cur].end;
        }
        None
    }

    /// The sibling just behind element `i`.
    pub open spec fn next_sib(&self, i: int) -> Option<usize> {
        if i > 0 && self.end(i) < self.end(self.up(i)) {
            Some(self.end(i) as usize)
        } else {
            None
        }
    }

    pub fn next_sibling(&self, i: usize) -> (r: Option<usize>)
        requires
            self.wf(),
            i < self.n(),
        ensures
            r == self.next_sib(i as int),
            r matches Some(j) ==> i < j < self.n(),
    {
        if i > 0 {
            let p: usize = self.elems[i].parent;
            assert(self.up(i as int) < i);
            assert(i < self.end(i as int) <= self.n());
            assert(p < self.end(p as int) <= self.n());
            if self.elems[i].end < self.elems[p].end {
                return Some(self.elems[i].end);
            }
        }
        None
    }

    /// The source text of the elements from `lo` up to `hi`.
    pub open spec fn source(&self, lo: int, hi: int) -> Seq<char>
        decreases hi - lo,
    {
        if hi <= lo || hi <= 0 {
            Seq::empty()
        } else if self.tok(hi - 1) {
            self.source(lo, hi - 1) + self.txt(hi - 1)
        } else {
            self.source(lo, hi - 1)
        }
    }

    /// The source text of an element.
    pub open spec fn src(&self, i: int) -> Seq<char> {
        self.source(i, self.end(i))
    }

    /// The source text of an element.
    pub fn source_text(&self, i: usize) -> (r: String)
        requires
            self.wf(),
            i < self.n(),
        ensures
            r@ == self.src(i as int),
    {
        let mut out = String::new();
        let hi: usize = self.elems[i].end;
        let mut j: usize = i;
        assert(i < self.end(i as int) <= self.n());
        while j < hi
            invariant
                i <= j <= hi <= self.n(),
                out@ == self.source(i as int, j as int),
            decreases hi - j,
        {
            if self.elems[j].token {
                out.append(self.elems[j].text.as_str());
            }
            j = j + 1;
        }
        out
    }

    /// Whether the element has this name.
    pub open spec fn named(&self, i: int, name: Seq<char>) -> bool {
        self.elems@[i].facts.name matches Some(own) && own@ == name
    }

    pub fn is_named(&self, i: usize, name: &str) -> (r: bool)
        requires
            i < self.n(),
        ensures
            r == self.named(i as int, name@),
    {
        match &self.elems[i].facts.name {
            Some(own) => str_eq(own.as_str(), name),
            None => false,
        }
    }

    /// Whether some ancestor of the element is of this kind.
    pub open spec fn inside(&self, i: int, kind: SyntaxKind) -> bool
        decreases i,
    {
        0 < i && 0 <= self.up(i) < i && (self.k(self.up(i)) == kind || self.inside(self.up(i), kind))
    }

    pub fn is_inside(&self, i: usize, kind: SyntaxKind) -> (r: bool)
        requires
            self.wf(),
            i < self.n(),
        ensures
            r == self.inside(i as int, kind),
    {
        let mut j: usize = i;
        while j > 0
            invariant
                self.wf(),
                j <= i < self.n(),
                self.inside(j as int, kind) == self.inside(i as int, kind),
            decreases j,
        {
            let p: usize = self.elems[j].parent;
            assert(self.up(j as int) < j);
            if self.elems[p].kind == kind {
                return true;
            }
            j = p;
        }
        false
    }

    /// The child number `k` of this kind among the siblings from `i` up to `hi`.
    pub open spec fn nth_kid(&self, i: int, hi: int, kind: SyntaxKind, k: nat) -> Option<usize>
        decreases hi - i,
    {
        if !(0 <= i < hi && i < self.n() && i < self.end(i) <= hi) {
            None
        } else if self.node_is(i, kind) {
            if k == 0 {
                Some(i as usize)
            } else {
                self.nth_kid(self.end(i), hi, kind, (k - 1) as nat)
            }
        } else {
            self.nth_kid(self.end(i), hi, kind, k)
        }
    }

    /// The first child node of this kind.
    pub open spec fn kid(&self, i: int, kind: SyntaxKind) -> Option<usize> {
        self.nth_kid(i + 1, self.end(i), kind, 0)
    }

    /// The child node number `k` of this kind.
    pub fn nth_child(&self, i: usize, kind: SyntaxKind, k: usize) -> (r: Option<usize>)
        requires
            self.wf(),
            i < self.n(),
        ensures
            r == self.nth_kid(i + 1, self.end(i as int), kind, k as nat),
            r matches Some(c) ==> i < c < self.end(i as int) && self.end(c as int) <= self.end(i as int)
                && self.node_is(c as int, kind),
    {
        let hi: usize = self.elems[i].end;
        let mut left: usize = k;
        let mut j: usize = i + 1;
        while j < hi
            invariant
                self.wf(),
                i < self.n(),
                i < j,
                hi == self.end(i as int) <= self.n(),
                self.nth_kid(j as int, hi as int, kind, left as nat) == self.nth_kid(i + 1, hi as int, kind, k as nat),
            decreases hi - j,
        {
            assert(j < self.end(j as int) <= self.end(i as int));
            if !self.elems[j].token && self.elems[j].kind == kind {
                if left == 0 {
                    return Some(j);
                }
                left = left - 1;
            }
            j = self.elems[j].end;
        }
        None
    }

    /// Whether every element from `lo` up to `hi` is a token.
    pub open spec fn only_tokens(&self, lo: int, hi: int) -> bool {
        forall|j: int| lo <= j < hi ==> #[trigger] self.tok(j)
    }

    /// The text between the braces of a command's group number `k`, where it is literal: where
    /// the group holds tokens only.
    pub open spec fn group_inner(&self, i: int, k: nat) -> Option<Seq<char>> {
        match self.nth_kid(i + 1, self.end(i), SyntaxKind::Group, k) {
            Some(g) => {
                let (lo, hi) = (g as int, self.end(g as int));
                if hi - lo >= 3 && self.only_tokens(lo + 1, hi) && self.k(lo + 1) == SyntaxKind::LBrace && self.k(hi - 1)
                    == SyntaxKind::RBrace {
                    Some(self.source(lo + 2, hi - 1))
                } else {
                    None
                }
            },
            None => None,
        }
    }

    pub fn nth_group_inner(&self, i: usize, k: usize) -> (r: Option<String>)
        requires
            self.wf(),
            i < self.n(),
        ensures
            match r {
                Some(text) => self.group_inner(i as int, k as nat) == Some(text@),
                None => self.group_inner(i as int, k as nat) is None,
            },
    {
        match self.nth_child(i, SyntaxKind::Group, k) {
            Some(g) => {
                let hi: usize = self.elems[g].end;
                assert(g < self.end(g as int) <= self.n());
                if hi - g < 3 || self.elems[g + 1].kind != SyntaxKind::LBrace || self.elems[hi - 1].kind
                    != SyntaxKind::RBrace {
                    return None;
                }
                let mut out = String::new();
                let mut j: usize = g + 1;
                while j < hi
                    invariant
                        g + 1 <= j <= hi <= self.n(),
                        hi - g >= 3,
                        hi == self.end(g as int),
                        self.nth_kid(i + 1, self.end(i as int), SyntaxKind::Group, k as nat) == Some(g),
                        self.only_tokens(g + 1, j as int),
                        out@ == self.source(g + 2, if j < g + 2 { g + 2 } else if j < hi { j as int } else { hi - 1 }),
                    decreases hi - j,
                {
                    if !self.elems[j].token {
                        assert(!self.tok(j as int));
                        return None;
                    }
                    if j > g + 1 && j < hi - 1 {
                        out.append(self.elems[j].text.as_str());
                    }
                    j = j + 1;
                }
                Some(out)
            },
            None => None,
        }
    }
}

} // verus!

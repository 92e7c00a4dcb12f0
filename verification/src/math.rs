//! Math.

use vstd::prelude::*;

use crate::commands::{command_spaced, lower_command_with_math_spacing};
use crate::context::{fits, in_tree, part, room, LowerCtx};
use crate::docs::{first_content, first_content_in};
use crate::flatten::{framing_stripped, strip_virtual_dtx_framing};
use crate::gap::{gap_end, gap_newlines, lemma_gap_end};
use crate::ir::{align, concat, concat2, concat3, flat_text, space, verbatim, Ir, IrList, Layout};
use crate::lower::{loose, lower_loose_token, lower_node, node};
use crate::predicates::{command_has_math_arg, has_math_arg};
use crate::syntax::{collapsible, DelimiterRole, MathAtom, MathClass, SyntaxKind, Tree, WordAtom};
use crate::text::{alphabetic, char_is_alphabetic, str_eq, trim, trimmed};

verus! {

/// How a list of math is spaced.
#[derive(Clone, Copy, Debug, PartialEq, Eq, Structural)]
pub enum MathSpacing {
    /// With a space on both sides of an operator.
    Normal,
    /// As tight as it can be.
    Script,
}

/// What an atom is to the layout.
#[derive(Clone, Copy, Debug, PartialEq, Eq, Structural)]
pub enum MathRole {
    /// A term.
    Operand,
    /// An operator between two terms.
    Binary,
    /// A relation.
    Relation,
    /// The minus of a limit from the left.
    PostfixLeftLimit,
}

/// How tightly an operator binds.
#[derive(Clone, Copy, Debug, PartialEq, Eq, Structural)]
pub enum MathBreakKind {
    /// As its class says.
    Class,
    Additive,
    Multiplicative,
    /// It separates a condition.
    Conditional,
}

/// A width that grows stays one that a machine can hold.
pub open spec fn clamped(width: int) -> int {
    if width > usize::MAX {
        usize::MAX as int
    } else {
        width
    }
}

pub fn clamped_sum(a: usize, b: usize) -> (r: usize)
    ensures
        r == clamped(a + b),
{
    if a <= usize::MAX - b {
        a + b
    } else {
        usize::MAX
    }
}

/// How many characters a piece takes on one line.
pub fn flat_width(ir: &Ir) -> (r: usize)
    ensures
        r == flat_text(ir@).len(),
{
    let text = ir.print_flat();
    text.as_str().unicode_len()
}

// ---- what an element is --------------------------------------------------------------------

pub open spec fn is_script_part(kind: SyntaxKind) -> bool {
    collapsible(kind) || kind == SyntaxKind::Subscript || kind == SyntaxKind::Superscript
}

/// The first element of a list from `i` on that is neither white space nor a script.
pub open spec fn base_of(t: &Tree, es: Seq<usize>, i: int) -> Option<usize>
    decreases es.len() - i,
{
    if i < 0 || i >= es.len() {
        None
    } else if is_script_part(t.k(es[i] as int)) {
        base_of(t, es, i + 1)
    } else {
        Some(es[i])
    }
}

fn base_element(cx: LowerCtx, es: &Vec<usize>) -> (r: Option<usize>)
    requires
        in_tree(cx.t, es@),
    ensures
        r == base_of(cx.t, es@, 0),
        r matches Some(e) ==> e < cx.t.n(),
{
    let mut i: usize = 0;
    while i < es.len()
        invariant
            in_tree(cx.t, es@),
            base_of(cx.t, es@, i as int) == base_of(cx.t, es@, 0),
        decreases es@.len() - i,
    {
        let k = cx.t.kind(es[i]);
        if !(k == SyntaxKind::Whitespace || k == SyntaxKind::Newline || k == SyntaxKind::Subscript || k
            == SyntaxKind::Superscript) {
            return Some(es[i]);
        }
        i = i + 1;
    }
    None
}

/// How tightly an element binds as an operator. A base with scripts binds as the base does.
pub open spec fn break_kind(t: &Tree, e: int) -> MathBreakKind
    decreases t.n() - e,
{
    if t.tok(e) {
        if t.txt(e) == "+"@ || t.txt(e) == "-"@ {
            MathBreakKind::Additive
        } else {
            MathBreakKind::Class
        }
    } else if t.k(e) == SyntaxKind::Scripted {
        match base_of(t, t.kids(e), 0) {
            Some(c) => if e < c < t.n() {
                break_kind(t, c as int)
            } else {
                MathBreakKind::Class
            },
            None => MathBreakKind::Class,
        }
    } else if t.k(e) != SyntaxKind::Command {
        MathBreakKind::Class
    } else if t.named(e, "pm"@) || t.named(e, "mp"@) {
        MathBreakKind::Additive
    } else if t.named(e, "cdot"@) {
        MathBreakKind::Multiplicative
    } else if t.named(e, "mid"@) {
        MathBreakKind::Conditional
    } else {
        MathBreakKind::Class
    }
}

pub fn math_break_kind(cx: LowerCtx, e: usize) -> (r: MathBreakKind)
    requires
        cx.ok(),
        e < cx.t.n(),
    ensures
        r == break_kind(cx.t, e as int),
    decreases cx.t.n() - e,
{
    if cx.t.is_token(e) {
        if str_eq(cx.t.text(e), "+") || str_eq(cx.t.text(e), "-") {
            MathBreakKind::Additive
        } else {
            MathBreakKind::Class
        }
    } else if cx.t.kind(e) == SyntaxKind::Scripted {
        match base_element(cx, &cx.children(e)) {
            Some(c) => if e < c {
                math_break_kind(cx, c)
            } else {
                MathBreakKind::Class
            },
            None => MathBreakKind::Class,
        }
    } else if cx.t.kind(e) != SyntaxKind::Command {
        MathBreakKind::Class
    } else if cx.t.is_named(e, "pm") || cx.t.is_named(e, "mp") {
        MathBreakKind::Additive
    } else if cx.t.is_named(e, "cdot") {
        MathBreakKind::Multiplicative
    } else if cx.t.is_named(e, "mid") {
        MathBreakKind::Conditional
    } else {
        MathBreakKind::Class
    }
}

/// Whether a text starts with a letter, which would go on a control word before it.
pub open spec fn starts_letter(text: Seq<char>) -> bool {
    text.len() > 0 && alphabetic(text[0])
}

pub fn is_control_word_letter(text: &str) -> (r: bool)
    ensures
        r == starts_letter(text@),
{
    text.unicode_len() > 0 && char_is_alphabetic(text.get_char(0))
}

/// The last token of a stretch of the tree that is not white space.
pub open spec fn last_content(t: &Tree, lo: int, i: int) -> Option<usize>
    decreases i - lo,
{
    if i <= lo {
        None
    } else if t.tok(i - 1) && !t.gap(i - 1) {
        Some((i - 1) as usize)
    } else {
        last_content(t, lo, i - 1)
    }
}

fn last_content_in(cx: LowerCtx, n: usize) -> (r: Option<usize>)
    requires
        cx.ok(),
        n < cx.t.n(),
    ensures
        r == last_content(cx.t, n as int, cx.t.end(n as int)),
        r matches Some(i) ==> i < cx.t.n(),
{
    let hi: usize = cx.t.subtree_end(n);
    proof {
        reveal(LowerCtx::ok);
        assert(cx.t.end(n as int) <= cx.t.n());
    }
    let mut i: usize = hi;
    while i > n
        invariant
            i <= hi <= cx.t.n(),
            hi == cx.t.end(n as int),
            last_content(cx.t, n as int, i as int) == last_content(cx.t, n as int, hi as int),
        decreases i,
    {
        if cx.t.is_token(i - 1) && !cx.t.is_gap(i - 1) {
            return Some(i - 1);
        }
        i = i - 1;
    }
    None
}

/// What the first token of an element reads.
pub open spec fn head_text(t: &Tree, e: int) -> Option<Seq<char>> {
    match first_content(t, e, t.end(e)) {
        Some(i) => Some(t.txt(i as int)),
        None => None,
    }
}

/// Whether an element starts with a letter.
pub open spec fn element_starts_letter(t: &Tree, e: int) -> bool {
    match head_text(t, e) {
        Some(text) => starts_letter(text),
        None => false,
    }
}

/// Whether an element ends in a control word.
pub open spec fn ends_control_word(t: &Tree, e: int) -> bool {
    match last_content(t, e, t.end(e)) {
        Some(i) => t.k(i as int) == SyntaxKind::ControlWord,
        None => false,
    }
}

// ---- atoms ---------------------------------------------------------------------------------

/// What the layout knows of an atom.
pub struct Surface {
    pub layout: Layout,
    pub class: MathClass,
    pub break_kind: MathBreakKind,
    pub delimiter: Option<DelimiterRole>,
    /// Colons that may turn out to start a relation.
    pub colon: bool,
    /// A relation that starts with an equals sign.
    pub equals: bool,
    /// A slash with space around it.
    pub spaced_slash: bool,
    pub slash: bool,
    /// An operator that ends in a control word.
    pub word_operator: bool,
    pub starts_letter: bool,
    pub ends_word: bool,
    /// The minus of a limit from the left.
    pub postfix: bool,
}

pub open spec fn operator_class(class: MathClass) -> bool {
    class == MathClass::Bin || class == MathClass::Rel
}

/// The first atom of a token.
pub open spec fn first_atom(t: &Tree, i: int) -> Option<MathAtom> {
    if t.k(i) == SyntaxKind::Word {
        if t.elems@[i].facts.letters@.len() > 0 {
            Some(t.elems@[i].facts.letters@[0].atom)
        } else {
            None
        }
    } else {
        Some(t.elems@[i].facts.atom)
    }
}

fn first_math_atom(cx: LowerCtx, i: usize) -> (r: Option<MathAtom>)
    requires
        i < cx.t.n(),
    ensures
        r == first_atom(cx.t, i as int),
{
    if cx.t.kind(i) == SyntaxKind::Word {
        if cx.t.elems[i].facts.letters.len() > 0 {
            Some(cx.t.elems[i].facts.letters[0].atom)
        } else {
            None
        }
    } else {
        Some(cx.t.elems[i].facts.atom)
    }
}

/// What one atom of a word reads.
pub open spec fn letter_text(t: &Tree, e: int, letter: WordAtom) -> Seq<char> {
    t.txt(e).subrange(letter.start as int, letter.end as int)
}

/// Whether white space stands next to the token, before it or behind it.
pub open spec fn gap_beside(t: &Tree, e: int, behind: bool) -> bool {
    match if behind {
        t.next_tok(e)
    } else {
        t.prev_tok(e)
    } {
        Some(i) => collapsible(t.k(i as int)),
        None => false,
    }
}

/// An atom of a word before its neighbours have been looked at.
pub open spec fn letter_surface(t: &Tree, e: int, letter: WordAtom) -> Surface {
    let text = letter_text(t, e, letter);
    let slash = letter.atom.class == MathClass::Ord && text == "/"@;
    Surface {
        layout: verbatim(text),
        class: letter.atom.class,
        break_kind: if text == "+"@ || text == "-"@ {
            MathBreakKind::Additive
        } else {
            MathBreakKind::Class
        },
        delimiter: letter.atom.delimiter,
        colon: letter.atom.class == MathClass::Punct && text == ":"@,
        equals: false,
        spaced_slash: slash && ((letter.start == 0 && gap_beside(t, e, false)) || (letter.end == t.txt(e).len()
            && gap_beside(t, e, true))),
        slash,
        word_operator: false,
        starts_letter: starts_letter(text),
        ends_word: false,
        postfix: text == "-"@,
    }
}

/// Whether an atom of a word goes on the one before it: relations do, and colons do where an
/// equals sign may follow.
pub open spec fn joins(t: &Tree, e: int, last: Surface, letter: WordAtom) -> bool {
    let text = letter_text(t, e, letter);
    (last.class == MathClass::Rel && letter.atom.class == MathClass::Rel) || (last.colon && letter.atom.class
        == MathClass::Punct && text == ":"@) || completes(t, e, last, letter)
}

/// Whether an atom of a word makes a relation of the colons before it.
pub open spec fn completes(t: &Tree, e: int, last: Surface, letter: WordAtom) -> bool {
    last.colon && letter.atom.class == MathClass::Rel && letter_text(t, e, letter) == "="@
}

/// The atoms of a word once the first `j` are behind.
pub open spec fn word_surfaces(t: &Tree, e: int, j: int) -> Seq<Surface>
    decreases j,
{
    let letters = t.elems@[e].facts.letters@;
    if j <= 0 || j > letters.len() {
        Seq::empty()
    } else {
        let before = word_surfaces(t, e, j - 1);
        let letter = letters[j - 1];
        if before.len() > 0 && joins(t, e, before.last(), letter) {
            let last = before.last();
            let whole = completes(t, e, last, letter);
            before.drop_last().push(
                Surface {
                    layout: concat2(last.layout, verbatim(letter_text(t, e, letter))),
                    class: if whole {
                        MathClass::Rel
                    } else {
                        last.class
                    },
                    colon: last.colon && !whole,
                    ..last
                },
            )
        } else {
            before.push(letter_surface(t, e, letter))
        }
    }
}

/// Whether the token behind the white space after the word closes something.
pub open spec fn closes_behind(t: &Tree, e: int) -> bool {
    match first_content(t, e + 1, t.n()) {
        Some(i) => match first_atom(t, i as int) {
            Some(atom) => atom.delimiter == Some(DelimiterRole::Close),
            None => false,
        },
        None => false,
    }
}

/// Whether the token behind the word is an operator that a slash keeps away from.
pub open spec fn operator_behind(t: &Tree, e: int, spacing: MathSpacing) -> bool {
    match t.next_tok(e) {
        Some(i) => match first_atom(t, i as int) {
            Some(atom) => operator_class(atom.class) && (spacing == MathSpacing::Normal || t.k(i as int)
                == SyntaxKind::ControlWord),
            None => false,
        },
        None => false,
    }
}

/// The atom `i` of a word, with its neighbours taken into account.
pub open spec fn settled(t: &Tree, e: int, all: Seq<Surface>, i: int, spacing: MathSpacing) -> Surface {
    let s = all[i];
    Surface {
        postfix: s.postfix && if i + 1 < all.len() {
            all[i + 1].delimiter == Some(DelimiterRole::Close)
        } else {
            closes_behind(t, e)
        },
        spaced_slash: s.spaced_slash || (s.slash && if i + 1 < all.len() {
            spacing == MathSpacing::Normal && operator_class(all[i + 1].class)
        } else {
            operator_behind(t, e, spacing)
        }),
        ..s
    }
}

/// The atoms of a word.
#[verifier::opaque]
pub open spec fn word_atoms(t: &Tree, e: int, spacing: MathSpacing) -> Seq<Surface> {
    let all = word_surfaces(t, e, t.elems@[e].facts.letters@.len() as int);
    Seq::new(all.len(), |i: int| settled(t, e, all, i, spacing))
}

/// An element that is one atom.
#[verifier::opaque]
pub open spec fn single_atom(t: &Tree, e: int, layout: Layout) -> Surface {
    let atom = t.elems@[e].facts.atom;
    let ends = if t.tok(e) {
        t.k(e) == SyntaxKind::ControlWord
    } else {
        ends_control_word(t, e)
    };
    Surface {
        layout,
        class: atom.class,
        break_kind: break_kind(t, e),
        delimiter: atom.delimiter,
        colon: false,
        equals: !t.tok(e) && atom.class == MathClass::Rel && head_text(t, e) == Some("="@),
        spaced_slash: false,
        slash: false,
        word_operator: ends && operator_class(atom.class),
        starts_letter: if t.tok(e) {
            starts_letter(t.txt(e))
        } else {
            element_starts_letter(t, e)
        },
        ends_word: ends,
        postfix: false,
    }
}

/// The atoms of an element.
pub open spec fn atoms_of(cx: LowerCtx, e: int, spacing: MathSpacing, fuel: nat) -> Seq<Surface>
    decreases fuel, 56int, 0int,
{
    if cx.t.tok_is(e, SyntaxKind::Word) {
        word_atoms(cx.t, e, spacing)
    } else {
        seq![single_atom(cx.t, e, math_element(cx, e, spacing, fuel))]
    }
}

/// What the layout knows of an atom.
pub struct MathSurfaceAtom {
    pub ir: Ir,
    pub class: MathClass,
    pub break_kind: MathBreakKind,
    pub delimiter: Option<DelimiterRole>,
    pub colon: bool,
    pub equals: bool,
    pub spaced_slash: bool,
    pub slash: bool,
    pub word_operator: bool,
    pub starts_letter: bool,
    pub ends_word: bool,
    pub postfix: bool,
}

impl View for MathSurfaceAtom {
    type V = Surface;

    open spec fn view(&self) -> Surface {
        Surface {
            layout: self.ir@,
            class: self.class,
            break_kind: self.break_kind,
            delimiter: self.delimiter,
            colon: self.colon,
            equals: self.equals,
            spaced_slash: self.spaced_slash,
            slash: self.slash,
            word_operator: self.word_operator,
            starts_letter: self.starts_letter,
            ends_word: self.ends_word,
            postfix: self.postfix,
        }
    }
}

/// The contents of a list of atoms.
#[verifier::opaque]
pub open spec fn surfaces(atoms: Seq<MathSurfaceAtom>) -> Seq<Surface> {
    Seq::new(atoms.len(), |i: int| atoms[i]@)
}

fn is_operator_class(class: MathClass) -> (r: bool)
    ensures
        r == operator_class(class),
{
    class == MathClass::Bin || class == MathClass::Rel
}

fn has_gap_beside(cx: LowerCtx, e: usize, behind: bool) -> (r: bool)
    requires
        cx.ok(),
        e < cx.t.n(),
    ensures
        r == gap_beside(cx.t, e as int, behind),
{
    proof {
        reveal(LowerCtx::ok);
    }
    let beside = if behind {
        cx.t.next_token(e)
    } else {
        cx.t.prev_token(e)
    };
    match beside {
        Some(i) => cx.t.kind(i) == SyntaxKind::Whitespace || cx.t.kind(i) == SyntaxKind::Newline,
        None => false,
    }
}

fn closer_behind(cx: LowerCtx, e: usize) -> (r: bool)
    requires
        cx.ok(),
        e < cx.t.n(),
    ensures
        r == closes_behind(cx.t, e as int),
{
    let hi: usize = cx.t.len();
    let mut i: usize = e + 1;
    while i < hi
        invariant
            hi == cx.t.n(),
            first_content(cx.t, i as int, hi as int) == first_content(cx.t, e + 1, hi as int),
        decreases hi - i,
    {
        if cx.t.is_token(i) && !cx.t.is_gap(i) {
            return match first_math_atom(cx, i) {
                Some(atom) => match atom.delimiter {
                    Some(role) => role == DelimiterRole::Close,
                    None => false,
                },
                None => false,
            };
        }
        i = i + 1;
    }
    false
}

fn has_operator_behind(cx: LowerCtx, e: usize, spacing: MathSpacing) -> (r: bool)
    requires
        cx.ok(),
        e < cx.t.n(),
    ensures
        r == operator_behind(cx.t, e as int, spacing),
{
    proof {
        reveal(LowerCtx::ok);
    }
    match cx.t.next_token(e) {
        Some(i) => match first_math_atom(cx, i) {
            Some(atom) => is_operator_class(atom.class) && (spacing == MathSpacing::Normal || cx.t.kind(i)
                == SyntaxKind::ControlWord),
            None => false,
        },
        None => false,
    }
}

fn is_closing(delimiter: Option<DelimiterRole>) -> (r: bool)
    ensures
        r == (delimiter == Some(DelimiterRole::Close)),
{
    match delimiter {
        Some(role) => role == DelimiterRole::Close,
        None => false,
    }
}

fn is_opening(delimiter: Option<DelimiterRole>) -> (r: bool)
    ensures
        r == (delimiter == Some(DelimiterRole::Open)),
{
    match delimiter {
        Some(role) => role == DelimiterRole::Open,
        None => false,
    }
}

fn lower_word_atoms(cx: LowerCtx, e: usize, spacing: MathSpacing) -> (r: Vec<MathSurfaceAtom>)
    requires
        cx.ok(),
        e < cx.t.n(),
        cx.t.tok(e as int),
    ensures
        surfaces(r@) == word_atoms(cx.t, e as int, spacing),
{
    proof {
        reveal(word_atoms);
        reveal(surfaces);
    }
    proof {
        reveal(LowerCtx::ok);
    }
    let text = cx.t.text(e);
    let n: usize = text.unicode_len();
    let letters = &cx.t.elems[e].facts.letters;
    let mut out: Vec<MathSurfaceAtom> = Vec::new();
    assert(surfaces(out@) =~= word_surfaces(cx.t, e as int, 0));
    let mut j: usize = 0;
    while j < letters.len()
        invariant
            cx.ok(),
            crate::context::letters_in_words(cx.t),
            e < cx.t.n(),
            letters@ == cx.t.elems@[e as int].facts.letters@,
            text@ == cx.t.txt(e as int),
            n == text@.len(),
            j <= letters@.len(),
            surfaces(out@) == word_surfaces(cx.t, e as int, j as int),
        decreases letters@.len() - j,
    {
        proof {
            reveal(surfaces);
        }
        let letter = letters[j];
        assert(crate::context::letters_ok(cx.t, e as int));
        assert(cx.t.elems@[e as int].facts.letters@[j as int] == letter);
        let part = text.substring_char(letter.start, letter.end);
        let ghost before = surfaces(out@);
        let n_out: usize = out.len();
        let mut joined = false;
        if n_out > 0 {
            let colon = out[n_out - 1].colon;
            let whole = colon && letter.atom.class == MathClass::Rel && str_eq(part, "=");
            if (out[n_out - 1].class == MathClass::Rel && letter.atom.class == MathClass::Rel) || (colon
                && letter.atom.class == MathClass::Punct && str_eq(part, ":")) || whole {
                joined = true;
                let ghost was = out@;
                match out.pop() {
                    Some(last) => {
                        let class = if whole {
                            MathClass::Rel
                        } else {
                            last.class
                        };
                        let colon = last.colon && !whole;
                        out.push(
                            MathSurfaceAtom {
                                ir: Ir::concat2(last.ir, Ir::verbatim(part)),
                                class,
                                break_kind: last.break_kind,
                                delimiter: last.delimiter,
                                colon,
                                equals: last.equals,
                                spaced_slash: last.spaced_slash,
                                slash: last.slash,
                                word_operator: last.word_operator,
                                starts_letter: last.starts_letter,
                                ends_word: last.ends_word,
                                postfix: last.postfix,
                            },
                        );
                        proof {
                            assert(last@ == before.last());
                            assert(surfaces(out@) =~= before.drop_last().push(out@.last()@));
                        }
                    },
                    None => {},
                }
            }
        }
        if !joined {
            let slash = letter.atom.class == MathClass::Ord && str_eq(part, "/");
            let spaced_slash = slash && ((letter.start == 0 && has_gap_beside(cx, e, false)) || (letter.end == n
                && has_gap_beside(cx, e, true)));
            out.push(
                MathSurfaceAtom {
                    ir: Ir::verbatim(part),
                    class: letter.atom.class,
                    break_kind: if str_eq(part, "+") || str_eq(part, "-") {
                        MathBreakKind::Additive
                    } else {
                        MathBreakKind::Class
                    },
                    delimiter: letter.atom.delimiter,
                    colon: letter.atom.class == MathClass::Punct && str_eq(part, ":"),
                    equals: false,
                    spaced_slash,
                    slash,
                    word_operator: false,
                    starts_letter: is_control_word_letter(part),
                    ends_word: false,
                    postfix: str_eq(part, "-"),
                },
            );
            assert(surfaces(out@) =~= before.push(out@.last()@));
        }
        j = j + 1;
    }
    let ghost all = surfaces(out@);
    let m: usize = out.len();
    let mut i: usize = 0;
    while i < m
        invariant
            cx.ok(),
            e < cx.t.n(),
            m == out@.len(),
            m == all.len(),
            i <= m,
            forall|k: int| 0 <= k < i ==> (#[trigger] out@[k])@ == settled(cx.t, e as int, all, k, spacing),
            forall|k: int| i <= k < m ==> (#[trigger] out@[k])@ == all[k],
        decreases m - i,
    {
        let ghost was = out@;
        assert(out@[i as int]@ == all[i as int]);
        let closed = if i + 1 < m {
            assert(out@[i + 1]@ == all[i + 1]);
            is_closing(out[i + 1].delimiter)
        } else {
            closer_behind(cx, e)
        };
        let operator = if i + 1 < m {
            spacing == MathSpacing::Normal && is_operator_class(out[i + 1].class)
        } else {
            has_operator_behind(cx, e, spacing)
        };
        let postfix = out[i].postfix && closed;
        let spaced_slash = out[i].spaced_slash || (out[i].slash && operator);
        out[i].postfix = postfix;
        out[i].spaced_slash = spaced_slash;
        i = i + 1;
    }
    assert(surfaces(out@) =~= word_atoms(cx.t, e as int, spacing));
    out
}

pub fn lower_math_atoms(cx: LowerCtx, e: usize, spacing: MathSpacing, Ghost(fuel): Ghost<nat>) -> (r: Vec<MathSurfaceAtom>)
    requires
        cx.ok(),
        room(cx.t, e as int, fuel),
    ensures
        surfaces(r@) == atoms_of(cx, e as int, spacing, fuel),
    decreases fuel, 56int, 0int,
{
    proof {
        reveal(single_atom);
        reveal(surfaces);
    }
    if cx.t.token_is(e, SyntaxKind::Word) {
        return lower_word_atoms(cx, e, spacing);
    }
    let ir = lower_math_element(cx, e, spacing, Ghost(fuel));
    let token = cx.t.is_token(e);
    let atom = cx.t.elems[e].facts.atom;
    let ends = if token {
        cx.t.kind(e) == SyntaxKind::ControlWord
    } else {
        match last_content_in(cx, e) {
            Some(i) => cx.t.kind(i) == SyntaxKind::ControlWord,
            None => false,
        }
    };
    let (starts, equals) = if token {
        (is_control_word_letter(cx.t.text(e)), false)
    } else {
        match first_content_in(cx, e) {
            Some(i) => (is_control_word_letter(cx.t.text(i)), str_eq(cx.t.text(i), "=")),
            None => (false, false),
        }
    };
    let one = MathSurfaceAtom {
        ir,
        class: atom.class,
        break_kind: math_break_kind(cx, e),
        delimiter: atom.delimiter,
        colon: false,
        equals: atom.class == MathClass::Rel && equals,
        spaced_slash: false,
        slash: false,
        word_operator: ends && is_operator_class(atom.class),
        starts_letter: starts,
        ends_word: ends,
        postfix: false,
    };
    let mut out: Vec<MathSurfaceAtom> = Vec::new();
    out.push(one);
    assert(surfaces(out@) =~= seq![one@]);
    out
}

// ---- roles ---------------------------------------------------------------------------------

/// What an atom is to the layout: an operator without a term on its left is part of a term.
pub open spec fn role_of(class: MathClass, prev: MathClass, after_opener: bool, postfix: bool) -> MathRole {
    if postfix {
        MathRole::PostfixLeftLimit
    } else if class == MathClass::Bin {
        if prev == MathClass::Op || prev == MathClass::Bin || prev == MathClass::Rel || prev == MathClass::Punct
            || after_opener {
            MathRole::Operand
        } else {
            MathRole::Binary
        }
    } else if class == MathClass::Rel {
        MathRole::Relation
    } else {
        MathRole::Operand
    }
}

pub fn math_atom_role(class: MathClass, prev: MathClass, after_opener: bool, postfix: bool) -> (r: MathRole)
    ensures
        r == role_of(class, prev, after_opener, postfix),
{
    if postfix {
        MathRole::PostfixLeftLimit
    } else if class == MathClass::Bin {
        if prev == MathClass::Op || prev == MathClass::Bin || prev == MathClass::Rel || prev == MathClass::Punct
            || after_opener {
            MathRole::Operand
        } else {
            MathRole::Binary
        }
    } else if class == MathClass::Rel {
        MathRole::Relation
    } else {
        MathRole::Operand
    }
}

impl MathRole {
    pub open spec fn like_operand(self) -> bool {
        self == MathRole::Operand || self == MathRole::PostfixLeftLimit
    }

    pub fn is_operand_like(self) -> (r: bool)
        ensures
            r == self.like_operand(),
    {
        self == MathRole::Operand || self == MathRole::PostfixLeftLimit
    }
}

// ---- a list of math on one line ------------------------------------------------------------

/// What is known while a list of math is put on a line.
pub struct MathLine {
    pub out: Seq<Layout>,
    pub started: bool,
    pub role: MathRole,
    pub class: MathClass,
    pub opener: bool,
    /// The last atom opens or closes something.
    pub edge: bool,
    pub spaced_slash: bool,
    pub word_operator: bool,
    pub ends_word: bool,
    pub colon: bool,
    /// The colons get a space on their left if they turn out to start a relation.
    pub colon_left: bool,
    /// Where the last atom stands in `out`.
    pub last: int,
    /// What stood in the source behind the last atom.
    pub space: bool,
    pub broken: bool,
    pub newline: bool,
    pub own_line: bool,
}

pub open spec fn no_math() -> MathLine {
    MathLine {
        out: Seq::empty(),
        started: false,
        role: MathRole::Relation,
        class: MathClass::Rel,
        opener: false,
        edge: false,
        spaced_slash: false,
        word_operator: false,
        ends_word: false,
        colon: false,
        colon_left: false,
        last: 0,
        space: false,
        broken: false,
        newline: false,
        own_line: false,
    }
}

impl MathLine {
    /// Whether the atom makes a relation of the colons before it.
    pub open spec fn completed_by(self, a: Surface) -> bool {
        self.colon && a.equals && !self.space && !self.broken && !self.newline
    }

    /// Whether the atom is a slash with space around it.
    #[verifier::opaque]
    pub open spec fn slash_spaced(self, a: Surface, spacing: MathSpacing) -> bool {
        a.spaced_slash || (a.slash && ((spacing == MathSpacing::Normal && !self.role.like_operand()) || (spacing
            == MathSpacing::Script && self.word_operator)))
    }

    /// Whether a space stands before the atom on its line.
    #[verifier::opaque]
    pub open spec fn space_before(self, a: Surface, spacing: MathSpacing) -> bool {
        let role = role_of(a.class, self.class, self.opener, a.postfix);
        let edge = a.delimiter == Some(DelimiterRole::Open) || a.delimiter == Some(DelimiterRole::Close);
        let operands = role == MathRole::Operand && self.role == MathRole::Operand;
        ||| self.ends_word && a.starts_letter
        ||| self.spaced_slash || self.slash_spaced(a, spacing)
        ||| spacing == MathSpacing::Normal && role != MathRole::PostfixLeftLimit && self.role
            != MathRole::PostfixLeftLimit && (!operands || self.space)
        ||| spacing == MathSpacing::Script && (a.word_operator || self.word_operator || (operands && self.space && !(
        self.edge || edge)))
    }

    /// The pieces before the atom: with the space that the colons have turned out to need, and
    /// with what separates the atom from them.
    #[verifier::opaque]
    pub open spec fn separated(self, a: Surface, spacing: MathSpacing) -> Seq<Layout> {
        let joined = self.completed_by(a);
        let base = if joined && self.colon_left {
            self.out.update(self.last, concat2(space(), self.out[self.last]))
        } else {
            self.out
        };
        if !self.started {
            base
        } else if self.broken || self.newline {
            base.push(Layout::HardLine)
        } else if joined {
            base
        } else if self.space_before(a, spacing) {
            base.push(space())
        } else {
            base
        }
    }

    /// What is known once the atom is on its line.
    #[verifier::opaque]
    pub open spec fn with_atom(self, a: Surface, spacing: MathSpacing, line_break: bool) -> MathLine {
        let spaced = self.separated(a, spacing);
        MathLine {
            out: spaced.push(a.layout),
            started: true,
            role: role_of(a.class, self.class, self.opener, a.postfix),
            class: a.class,
            opener: a.delimiter == Some(DelimiterRole::Open),
            edge: a.delimiter == Some(DelimiterRole::Open) || a.delimiter == Some(DelimiterRole::Close),
            spaced_slash: self.slash_spaced(a, spacing),
            word_operator: a.word_operator,
            ends_word: a.ends_word,
            colon: a.colon,
            colon_left: a.colon && spacing == MathSpacing::Normal && self.started && spaced.len() == self.out.len(),
            last: spaced.len() as int,
            space: false,
            broken: line_break,
            newline: false,
            own_line: false,
        }
    }

    /// What is known once the first `k` atoms are on their lines.
    pub open spec fn with_atoms(self, atoms: Seq<Surface>, k: int, spacing: MathSpacing, line_break: bool) -> MathLine
        decreases k,
    {
        if k <= 0 || k > atoms.len() {
            self
        } else {
            self.with_atoms(atoms, k - 1, spacing, line_break).with_atom(atoms[k - 1], spacing, line_break)
        }
    }

    /// What is known once all the atoms are on their lines.
    #[verifier::opaque]
    pub open spec fn with_all(self, atoms: Seq<Surface>, spacing: MathSpacing, line_break: bool) -> MathLine {
        self.with_atoms(atoms, atoms.len() as int, spacing, line_break)
    }

    #[verifier::opaque]
    pub open spec fn with_gap(self, newlines: int, preserve: bool) -> MathLine {
        if self.started {
            MathLine { space: true, newline: preserve && newlines > 0, own_line: newlines > 0, ..self }
        } else {
            self
        }
    }

    #[verifier::opaque]
    pub open spec fn with_comment(self, text: Seq<char>) -> MathLine {
        let base = if self.broken || self.newline || self.own_line {
            self.out.push(Layout::HardLine)
        } else if self.space {
            self.out.push(space())
        } else {
            self.out
        };
        MathLine {
            out: base.push(verbatim(text)),
            started: true,
            space: false,
            newline: false,
            own_line: false,
            broken: true,
            ..self
        }
    }
}

/// What is known once the elements from `i` on are on their lines.
#[verifier::opaque]
pub open spec fn math_line(
    cx: LowerCtx,
    es: Seq<usize>,
    i: int,
    s: MathLine,
    spacing: MathSpacing,
    preserve: bool,
    fuel: nat,
) -> MathLine
    decreases fuel, 65int, es.len() - i,
{
    if i < 0 || i >= es.len() {
        s
    } else {
        proof {
            lemma_gap_end(cx.t, es, i);
        }
        let e = es[i] as int;
        if cx.t.gap(e) {
            math_line(
                cx,
                es,
                gap_end(cx.t, es, i),
                s.with_gap(gap_newlines(cx.t, es, i), preserve),
                spacing,
                preserve,
                fuel,
            )
        } else if cx.t.tok_is(e, SyntaxKind::Comment) {
            math_line(cx, es, i + 1, s.with_comment(cx.t.txt(e)), spacing, preserve, fuel)
        } else {
            let atoms = atoms_of(cx, e, spacing, fuel);
            let next = s.with_all(atoms, spacing, cx.t.node_is(e, SyntaxKind::LineBreak));
            math_line(cx, es, i + 1, next, spacing, preserve, fuel)
        }
    }
}

/// A list of math. Its lines end behind comments and row breaks, and where they end in the
/// source if `preserve` holds.
pub open spec fn math_seq(cx: LowerCtx, es: Seq<usize>, spacing: MathSpacing, preserve: bool, fuel: nat) -> Layout
    decreases fuel, 66int, 0int,
{
    let s = math_line(cx, framing_stripped(cx, es), 0, no_math(), spacing, preserve, fuel);
    concat(
        if s.broken {
            s.out.push(Layout::HardLine)
        } else {
            s.out
        },
    )
}

struct MathState {
    out: IrList,
    started: bool,
    role: MathRole,
    class: MathClass,
    opener: bool,
    edge: bool,
    spaced_slash: bool,
    word_operator: bool,
    ends_word: bool,
    colon: bool,
    colon_left: bool,
    last: usize,
    space: bool,
    broken: bool,
    newline: bool,
    own_line: bool,
}

impl MathState {
    spec fn v(&self) -> MathLine {
        MathLine {
            out: self.out@,
            started: self.started,
            role: self.role,
            class: self.class,
            opener: self.opener,
            edge: self.edge,
            spaced_slash: self.spaced_slash,
            word_operator: self.word_operator,
            ends_word: self.ends_word,
            colon: self.colon,
            colon_left: self.colon_left,
            last: self.last as int,
            space: self.space,
            broken: self.broken,
            newline: self.newline,
            own_line: self.own_line,
        }
    }

    spec fn ok(&self) -> bool {
        self.colon_left ==> self.last < self.out@.len()
    }

    fn slash_is_spaced(&self, a: &MathSurfaceAtom, spacing: MathSpacing) -> (r: bool)
        ensures
            r == self.v().slash_spaced(a@, spacing),
    {
        proof {
            reveal(MathLine::slash_spaced);
        }
        a.spaced_slash || (a.slash && ((spacing == MathSpacing::Normal && !self.role.is_operand_like()) || (spacing
            == MathSpacing::Script && self.word_operator)))
    }

    fn wants_space(&self, a: &MathSurfaceAtom, spacing: MathSpacing) -> (r: bool)
        ensures
            r == self.v().space_before(a@, spacing),
    {
        proof {
            reveal(MathLine::space_before);
        }
        if self.ends_word && a.starts_letter {
            return true;
        }
        if self.spaced_slash || self.slash_is_spaced(a, spacing) {
            return true;
        }
        let role = math_atom_role(a.class, self.class, self.opener, a.postfix);
        let edge = is_opening(a.delimiter) || is_closing(a.delimiter);
        let operands = role == MathRole::Operand && self.role == MathRole::Operand;
        if spacing == MathSpacing::Normal {
            role != MathRole::PostfixLeftLimit && self.role != MathRole::PostfixLeftLimit && (!operands || self.space)
        } else {
            a.word_operator || self.word_operator || (operands && self.space && !(self.edge || edge))
        }
    }

    #[verifier::spinoff_prover]
    #[verifier::rlimit(60)]
    fn separate(&mut self, a: &MathSurfaceAtom, spacing: MathSpacing)
        requires
            old(self).ok(),
        ensures
            final(self).v() == (MathLine { out: old(self).v().separated(a@, spacing), ..old(self).v() }),
    {
        proof {
            reveal(MathLine::separated);
        }
        let joined = self.colon && a.equals && !self.space && !self.broken && !self.newline;
        let spaced = self.wants_space(a, spacing);
        if joined && self.colon_left {
            let grown = Ir::concat2(Ir::space(), self.out.at(self.last));
            self.out.set(self.last, grown);
        }
        if !self.started {
        } else if self.broken || self.newline {
            self.out.push(Ir::HardLine);
        } else if joined {
        } else if spaced {
            self.out.push(Ir::space());
        }
        assert(self.out@ =~= old(self).v().separated(a@, spacing));
    }

    #[verifier::spinoff_prover]
    fn push_atom(&mut self, a: &MathSurfaceAtom, spacing: MathSpacing, line_break: bool)
        requires
            old(self).ok(),
        ensures
            final(self).v() == old(self).v().with_atom(a@, spacing, line_break),
            final(self).ok(),
    {
        proof {
            reveal(MathLine::with_atom);
        }
        let slash = self.slash_is_spaced(a, spacing);
        let role = math_atom_role(a.class, self.class, self.opener, a.postfix);
        let before: usize = self.out.len();
        self.separate(a, spacing);
        let last: usize = self.out.len();
        let mut out = self.out.take();
        out.push(a.ir.clone());
        let opener = is_opening(a.delimiter);
        *self = MathState {
            out,
            started: true,
            role,
            class: a.class,
            opener,
            edge: opener || is_closing(a.delimiter),
            spaced_slash: slash,
            word_operator: a.word_operator,
            ends_word: a.ends_word,
            colon: a.colon,
            colon_left: a.colon && spacing == MathSpacing::Normal && self.started && before == last,
            last,
            space: false,
            broken: line_break,
            newline: false,
            own_line: false,
        };
    }

    fn push_atoms(&mut self, atoms: &Vec<MathSurfaceAtom>, spacing: MathSpacing, line_break: bool)
        requires
            old(self).ok(),
        ensures
            final(self).v() == old(self).v().with_all(surfaces(atoms@), spacing, line_break),
            final(self).ok(),
    {
        proof {
            reveal(surfaces);
            reveal(MathLine::with_all);
        }
        let ghost before = self.v();
        let mut k: usize = 0;
        while k < atoms.len()
            invariant
                self.ok(),
                k <= atoms@.len(),
                self.v() == before.with_atoms(surfaces(atoms@), k as int, spacing, line_break),
            decreases atoms@.len() - k,
        {
            assert(surfaces(atoms@)[k as int] == atoms@[k as int]@) by {
                reveal(surfaces);
            }
            assert(surfaces(atoms@).len() == atoms@.len()) by {
                reveal(surfaces);
            }
            self.push_atom(&atoms[k], spacing, line_break);
            k = k + 1;
        }
    }

    fn note_gap(&mut self, newlines: usize, preserve: bool)
        requires
            old(self).ok(),
        ensures
            final(self).v() == old(self).v().with_gap(newlines as int, preserve),
            final(self).ok(),
    {
        proof {
            reveal(MathLine::with_gap);
        }
        if self.started {
            self.space = true;
            self.newline = preserve && newlines > 0;
            self.own_line = newlines > 0;
        }
    }

    fn push_comment(&mut self, text: &str)
        requires
            old(self).ok(),
        ensures
            final(self).v() == old(self).v().with_comment(text@),
            final(self).ok(),
    {
        proof {
            reveal(MathLine::with_comment);
        }
        if self.broken || self.newline || self.own_line {
            self.out.push(Ir::HardLine);
        } else if self.space {
            self.out.push(Ir::space());
        }
        self.out.push(Ir::verbatim(text));
        self.started = true;
        self.space = false;
        self.newline = false;
        self.own_line = false;
        self.broken = true;
    }
}

/// Puts the element at `i` on the line, and says where the next one is.
fn take_math(
    cx: LowerCtx,
    es: &Vec<usize>,
    i: usize,
    s: MathState,
    spacing: MathSpacing,
    preserve: bool,
    Ghost(fuel): Ghost<nat>,
) -> (r: (MathState, usize))
    requires
        cx.ok(),
        fits(cx.t, es@, fuel),
        i < es@.len(),
        s.ok(),
    ensures
        r.0.ok(),
        i < r.1 <= es@.len(),
        math_line(cx, es@, r.1 as int, r.0.v(), spacing, preserve, fuel) == math_line(
            cx,
            es@,
            i as int,
            s.v(),
            spacing,
            preserve,
            fuel,
        ),
    decreases fuel, 65int, 0int,
{
    proof {
        reveal(math_line);
    }
    let mut s = s;
    assert(i < es.len());
    let e: usize = es[i];
    assert(room(cx.t, es@[i as int] as int, fuel));
    if cx.t.is_gap(e) {
        let (newlines, end) = cx.consume_widened_gap_slice(es, i);
        s.note_gap(newlines, preserve);
        (s, end)
    } else if cx.t.token_is(e, SyntaxKind::Comment) {
        s.push_comment(cx.t.text(e));
        (s, i + 1)
    } else {
        (take_math_element(cx, e, s, spacing, Ghost(fuel)), i + 1)
    }
}

/// Puts an element that is neither white space nor a comment on the line.
fn take_math_element(cx: LowerCtx, e: usize, s: MathState, spacing: MathSpacing, Ghost(fuel): Ghost<nat>) -> (r: MathState)
    requires
        cx.ok(),
        room(cx.t, e as int, fuel),
        s.ok(),
    ensures
        r.ok(),
        r.v() == s.v().with_all(
            atoms_of(cx, e as int, spacing, fuel),
            spacing,
            cx.t.node_is(e as int, SyntaxKind::LineBreak),
        ),
    decreases fuel, 64int, 0int,
{
    let mut s = s;
    let atoms = lower_math_atoms(cx, e, spacing, Ghost(fuel));
    s.push_atoms(&atoms, spacing, cx.t.is_node(e, SyntaxKind::LineBreak));
    s
}

pub fn lower_math_seq(
    cx: LowerCtx,
    elements: Vec<usize>,
    spacing: MathSpacing,
    preserve: bool,
    Ghost(fuel): Ghost<nat>,
) -> (r: Ir)
    requires
        cx.ok(),
        fits(cx.t, elements@, fuel),
    ensures
        r@ == math_seq(cx, elements@, spacing, preserve, fuel),
    decreases fuel, 66int, 0int,
{
    proof {
        reveal(math_line);
    }
    let es = strip_virtual_dtx_framing(cx, elements, Ghost(fuel));
    let mut s = MathState {
        out: IrList::new(),
        started: false,
        role: MathRole::Relation,
        class: MathClass::Rel,
        opener: false,
        edge: false,
        spaced_slash: false,
        word_operator: false,
        ends_word: false,
        colon: false,
        colon_left: false,
        last: 0,
        space: false,
        broken: false,
        newline: false,
        own_line: false,
    };
    let ghost start = no_math();
    assert(s.v() == start);
    let mut i: usize = 0;
    while i < es.len()
        invariant
            cx.ok(),
            fits(cx.t, es@, fuel),
            i <= es@.len(),
            s.ok(),
            math_line(cx, es@, i as int, s.v(), spacing, preserve, fuel) == math_line(
                cx,
                es@,
                0,
                start,
                spacing,
                preserve,
                fuel,
            ),
        decreases es@.len() - i,
    {
        let (next, end) = take_math(cx, &es, i, s, spacing, preserve, Ghost(fuel));
        s = next;
        i = end;
    }
    if s.broken {
        s.out.push(Ir::HardLine);
    }
    Ir::concat(s.out)
}

// ---- elements of math ----------------------------------------------------------------------

/// One element of a list of math.
pub open spec fn math_element(cx: LowerCtx, e: int, spacing: MathSpacing, fuel: nat) -> Layout
    decreases fuel, 55int, 0int,
{
    let k = cx.t.k(e);
    if cx.t.tok(e) {
        loose(cx, e)
    } else if k == SyntaxKind::Scripted {
        scripted(cx, e, spacing, fuel)
    } else if k == SyntaxKind::Subscript || k == SyntaxKind::Superscript {
        script(cx, e, fuel)
    } else if k == SyntaxKind::Group {
        math_group(cx, e, spacing, fuel)
    } else if k == SyntaxKind::LeftRight {
        left_right(cx, e, spacing, fuel)
    } else if k == SyntaxKind::Command {
        if has_math_arg(cx.sig(e)) {
            command_spaced(cx, e, spacing, fuel)
        } else {
            verbatim(cx.t.src(e))
        }
    } else if k == SyntaxKind::Environment {
        Layout::AlignCurrent(Box::new(node(cx, e, fuel)))
    } else {
        node(cx, e, fuel)
    }
}

pub fn lower_source(cx: LowerCtx, n: usize) -> (r: Ir)
    requires
        cx.ok(),
        n < cx.t.n(),
    ensures
        r@ == verbatim(cx.t.src(n as int)),
{
    proof {
        reveal(LowerCtx::ok);
    }
    Ir::verbatim(cx.t.source_text(n).as_str())
}

pub fn lower_math_element(cx: LowerCtx, e: usize, spacing: MathSpacing, Ghost(fuel): Ghost<nat>) -> (r: Ir)
    requires
        cx.ok(),
        room(cx.t, e as int, fuel),
    ensures
        r@ == math_element(cx, e as int, spacing, fuel),
    decreases fuel, 55int, 0int,
{
    let k = cx.t.kind(e);
    if cx.t.is_token(e) {
        lower_loose_token(cx, e)
    } else if k == SyntaxKind::Scripted {
        lower_scripted(cx, e, spacing, Ghost(fuel))
    } else if k == SyntaxKind::Subscript || k == SyntaxKind::Superscript {
        lower_script(cx, e, Ghost(fuel))
    } else if k == SyntaxKind::Group {
        lower_math_group(cx, e, spacing, Ghost(fuel))
    } else if k == SyntaxKind::LeftRight {
        lower_left_right(cx, e, spacing, Ghost(fuel))
    } else if k == SyntaxKind::Command {
        if command_has_math_arg(cx, e) {
            lower_command_with_math_spacing(cx, e, spacing, Ghost(fuel))
        } else {
            lower_source(cx, e)
        }
    } else if k == SyntaxKind::Environment {
        Ir::align_current(lower_node(cx, e, Ghost(fuel)))
    } else {
        lower_node(cx, e, Ghost(fuel))
    }
}

/// The elements before `i` that are of neither kind.
pub open spec fn without_kinds(t: &Tree, es: Seq<usize>, a: SyntaxKind, b: SyntaxKind, i: int) -> Seq<usize>
    decreases i,
{
    if i <= 0 || i > es.len() {
        Seq::empty()
    } else if t.k(es[i - 1] as int) == a || t.k(es[i - 1] as int) == b {
        without_kinds(t, es, a, b, i - 1)
    } else {
        without_kinds(t, es, a, b, i - 1).push(es[i - 1])
    }
}

fn drop_kinds(cx: LowerCtx, es: &Vec<usize>, a: SyntaxKind, b: SyntaxKind, Ghost(fuel): Ghost<nat>) -> (r: Vec<usize>)
    requires
        fits(cx.t, es@, fuel),
    ensures
        r@ == without_kinds(cx.t, es@, a, b, es@.len() as int),
        fits(cx.t, r@, fuel),
{
    let mut out: Vec<usize> = Vec::new();
    let mut i: usize = 0;
    assert(out@ =~= Seq::<usize>::empty());
    while i < es.len()
        invariant
            fits(cx.t, es@, fuel),
            fits(cx.t, out@, fuel),
            i <= es@.len(),
            out@ == without_kinds(cx.t, es@, a, b, i as int),
        decreases es@.len() - i,
    {
        assert(room(cx.t, es@[i as int] as int, fuel));
        let k = cx.t.kind(es[i]);
        if !(k == a || k == b) {
            out.push(es[i]);
        }
        i = i + 1;
    }
    out
}

/// A group of math between `open` and `close`.
pub open spec fn math_between(
    cx: LowerCtx,
    n: int,
    open: SyntaxKind,
    close: SyntaxKind,
    left: Seq<char>,
    right: Seq<char>,
    spacing: MathSpacing,
    fuel: nat,
) -> Layout
    decreases fuel, 29int, 0int,
{
    let es = cx.t.kids(n);
    let inside = if fuel == 0 {
        Layout::Nil
    } else {
        math_seq(cx, without_kinds(cx.t, es, open, close, es.len() as int), spacing, false, (fuel - 1) as nat)
    };
    concat3(verbatim(left), align(1, inside), verbatim(right))
}

fn lower_math_between(
    cx: LowerCtx,
    n: usize,
    open: SyntaxKind,
    close: SyntaxKind,
    left: &str,
    right: &str,
    spacing: MathSpacing,
    Ghost(fuel): Ghost<nat>,
) -> (r: Ir)
    requires
        cx.ok(),
        room(cx.t, n as int, fuel),
    ensures
        r@ == math_between(cx, n as int, open, close, left@, right@, spacing, fuel),
    decreases fuel, 29int, 0int,
{
    let es = cx.children(n);
    let inner = drop_kinds(cx, &es, open, close, Ghost((fuel - 1) as nat));
    let inside = lower_math_seq(cx, inner, spacing, false, Ghost((fuel - 1) as nat));
    Ir::concat3(Ir::verbatim(left), Ir::align(1, inside), Ir::verbatim(right))
}

/// A group in a list of math.
pub open spec fn math_group(cx: LowerCtx, n: int, spacing: MathSpacing, fuel: nat) -> Layout
    decreases fuel, 32int, 0int,
{
    math_between(cx, n, SyntaxKind::LBrace, SyntaxKind::RBrace, "{"@, "}"@, spacing, fuel)
}

pub fn lower_math_group(cx: LowerCtx, n: usize, spacing: MathSpacing, Ghost(fuel): Ghost<nat>) -> (r: Ir)
    requires
        cx.ok(),
        room(cx.t, n as int, fuel),
    ensures
        r@ == math_group(cx, n as int, spacing, fuel),
    decreases fuel, 32int, 0int,
{
    lower_math_between(cx, n, SyntaxKind::LBrace, SyntaxKind::RBrace, "{", "}", spacing, Ghost(fuel))
}

/// An argument of math.
pub open spec fn math_argument_group(cx: LowerCtx, n: int, spacing: MathSpacing, fuel: nat) -> Layout
    decreases fuel, 32int, 0int,
{
    if cx.t.k(n) == SyntaxKind::Group {
        math_between(cx, n, SyntaxKind::LBrace, SyntaxKind::RBrace, "{"@, "}"@, spacing, fuel)
    } else if cx.t.k(n) == SyntaxKind::Optional {
        math_between(cx, n, SyntaxKind::LBracket, SyntaxKind::RBracket, "["@, "]"@, spacing, fuel)
    } else {
        verbatim(cx.t.src(n))
    }
}

pub fn lower_math_argument_group(cx: LowerCtx, n: usize, spacing: MathSpacing, Ghost(fuel): Ghost<nat>) -> (r: Ir)
    requires
        cx.ok(),
        room(cx.t, n as int, fuel),
    ensures
        r@ == math_argument_group(cx, n as int, spacing, fuel),
    decreases fuel, 32int, 0int,
{
    if cx.t.kind(n) == SyntaxKind::Group {
        lower_math_between(cx, n, SyntaxKind::LBrace, SyntaxKind::RBrace, "{", "}", spacing, Ghost(fuel))
    } else if cx.t.kind(n) == SyntaxKind::Optional {
        lower_math_between(cx, n, SyntaxKind::LBracket, SyntaxKind::RBracket, "[", "]", spacing, Ghost(fuel))
    } else {
        lower_source(cx, n)
    }
}

/// The pieces of a delimited formula before element `i`, how wide its opening delimiter is, and
/// whether the formula itself is behind.
pub open spec fn left_right_parts(cx: LowerCtx, es: Seq<usize>, i: int, spacing: MathSpacing, fuel: nat) -> (
    Seq<Layout>,
    int,
    bool,
)
    decreases fuel, 69int, i,
{
    if i <= 0 || i > es.len() {
        (Seq::empty(), 0, false)
    } else {
        let (parts, width, seen) = left_right_parts(cx, es, i - 1, spacing, fuel);
        let e = es[i - 1] as int;
        if cx.t.gap(e) {
            (parts, width, seen)
        } else if cx.t.node_is(e, SyntaxKind::Math) {
            if trimmed(cx.t.src(e)).len() == 0 || fuel == 0 {
                (parts, width, true)
            } else {
                let body = math_seq(cx, cx.t.kids(e), spacing, false, (fuel - 1) as nat);
                (parts.push(align(clamped(width + 1), concat3(space(), body, space()))), width, true)
            }
        } else if cx.t.tok(e) {
            (
                parts.push(verbatim(cx.t.txt(e))),
                if seen {
                    width
                } else {
                    clamped(width + cx.t.txt(e).len())
                },
                seen,
            )
        } else {
            (parts.push(node(cx, e, fuel)), width, seen)
        }
    }
}

/// A formula between delimiters that grow with it.
pub open spec fn left_right(cx: LowerCtx, n: int, spacing: MathSpacing, fuel: nat) -> Layout
    decreases fuel, 33int, 0int,
{
    if fuel == 0 {
        Layout::Nil
    } else {
        let es = cx.t.kids(n);
        concat(left_right_parts(cx, es, es.len() as int, spacing, (fuel - 1) as nat).0)
    }
}

pub fn math_body_is_empty(cx: LowerCtx, n: usize) -> (r: bool)
    requires
        cx.ok(),
        n < cx.t.n(),
    ensures
        r == (trimmed(cx.t.src(n as int)).len() == 0),
{
    proof {
        reveal(LowerCtx::ok);
    }
    let text = cx.t.source_text(n);
    trim(text.as_str()).unicode_len() == 0
}

#[verifier::spinoff_prover]
#[verifier::rlimit(40)]
pub fn lower_left_right(cx: LowerCtx, n: usize, spacing: MathSpacing, Ghost(fuel): Ghost<nat>) -> (r: Ir)
    requires
        cx.ok(),
        room(cx.t, n as int, fuel),
    ensures
        r@ == left_right(cx, n as int, spacing, fuel),
    decreases fuel, 33int, 0int,
{
    let ghost less = (fuel - 1) as nat;
    let es = cx.children(n);
    let mut parts = IrList::new();
    let mut width: usize = 0;
    let mut seen = false;
    let mut i: usize = 0;
    while i < es.len()
        invariant
            cx.ok(),
            fuel > 0,
            less == fuel - 1,
            fits(cx.t, es@, less),
            i <= es@.len(),
            (parts@, width as int, seen) == left_right_parts(cx, es@, i as int, spacing, less),
        decreases es@.len() - i,
    {
        let e: usize = es[i];
        assert(room(cx.t, es@[i as int] as int, less));
        if cx.t.is_gap(e) {
        } else if cx.t.is_node(e, SyntaxKind::Math) {
            seen = true;
            if !math_body_is_empty(cx, e) {
                let body = lower_math_seq(cx, cx.children(e), spacing, false, Ghost((less - 1) as nat));
                parts.push(Ir::align(clamped_sum(width, 1), Ir::concat3(Ir::space(), body, Ir::space())));
            }
        } else if cx.t.is_token(e) {
            if !seen {
                width = clamped_sum(width, cx.t.text(e).unicode_len());
            }
            parts.push(Ir::verbatim(cx.t.text(e)));
        } else {
            parts.push(lower_node(cx, e, Ghost(less)));
        }
        i = i + 1;
    }
    Ir::concat(parts)
}

/// The pieces of a base with its scripts before element `i`.
pub open spec fn scripted_parts(cx: LowerCtx, es: Seq<usize>, i: int, spacing: MathSpacing, fuel: nat) -> Seq<Layout>
    decreases fuel, 69int, i,
{
    if i <= 0 || i > es.len() {
        Seq::empty()
    } else {
        let parts = scripted_parts(cx, es, i - 1, spacing, fuel);
        let e = es[i - 1] as int;
        if cx.t.gap(e) {
            parts
        } else if cx.t.node_is(e, SyntaxKind::Subscript) || cx.t.node_is(e, SyntaxKind::Superscript) {
            parts.push(script(cx, e, fuel))
        } else {
            parts.push(math_element(cx, e, spacing, fuel))
        }
    }
}

/// A base with its scripts.
pub open spec fn scripted(cx: LowerCtx, n: int, spacing: MathSpacing, fuel: nat) -> Layout
    decreases fuel, 30int, 0int,
{
    if fuel == 0 {
        Layout::Nil
    } else {
        let es = framing_stripped(cx, cx.t.kids(n));
        concat(scripted_parts(cx, es, es.len() as int, spacing, (fuel - 1) as nat))
    }
}

pub fn lower_scripted(cx: LowerCtx, n: usize, spacing: MathSpacing, Ghost(fuel): Ghost<nat>) -> (r: Ir)
    requires
        cx.ok(),
        room(cx.t, n as int, fuel),
    ensures
        r@ == scripted(cx, n as int, spacing, fuel),
    decreases fuel, 30int, 0int,
{
    let ghost less = (fuel - 1) as nat;
    let es = strip_virtual_dtx_framing(cx, cx.children(n), Ghost(less));
    let mut parts = IrList::new();
    let mut i: usize = 0;
    while i < es.len()
        invariant
            cx.ok(),
            fuel > 0,
            less == fuel - 1,
            fits(cx.t, es@, less),
            i <= es@.len(),
            parts@ == scripted_parts(cx, es@, i as int, spacing, less),
        decreases es@.len() - i,
    {
        let e: usize = es[i];
        assert(room(cx.t, es@[i as int] as int, less));
        if cx.t.is_gap(e) {
        } else if cx.t.is_node(e, SyntaxKind::Subscript) || cx.t.is_node(e, SyntaxKind::Superscript) {
            parts.push(lower_script(cx, e, Ghost(less)));
        } else {
            parts.push(lower_math_element(cx, e, spacing, Ghost(less)));
        }
        i = i + 1;
    }
    Ir::concat(parts)
}

/// The pieces of a script before element `i`.
pub open spec fn script_parts(cx: LowerCtx, es: Seq<usize>, i: int, fuel: nat) -> Seq<Layout>
    decreases fuel, 69int, i,
{
    if i <= 0 || i > es.len() {
        Seq::empty()
    } else {
        let parts = script_parts(cx, es, i - 1, fuel);
        let e = es[i - 1] as int;
        if cx.t.gap(e) {
            parts
        } else if cx.t.tok_is(e, SyntaxKind::Caret) || cx.t.tok_is(e, SyntaxKind::Underscore) {
            parts.push(verbatim(cx.t.txt(e)))
        } else {
            parts.push(math_element(cx, e, MathSpacing::Script, fuel))
        }
    }
}

/// A script.
pub open spec fn script(cx: LowerCtx, n: int, fuel: nat) -> Layout
    decreases fuel, 31int, 0int,
{
    if fuel == 0 {
        Layout::Nil
    } else {
        let es = framing_stripped(cx, cx.t.kids(n));
        concat(script_parts(cx, es, es.len() as int, (fuel - 1) as nat))
    }
}

pub fn lower_script(cx: LowerCtx, n: usize, Ghost(fuel): Ghost<nat>) -> (r: Ir)
    requires
        cx.ok(),
        room(cx.t, n as int, fuel),
    ensures
        r@ == script(cx, n as int, fuel),
    decreases fuel, 31int, 0int,
{
    let ghost less = (fuel - 1) as nat;
    let es = strip_virtual_dtx_framing(cx, cx.children(n), Ghost(less));
    let mut parts = IrList::new();
    let mut i: usize = 0;
    while i < es.len()
        invariant
            cx.ok(),
            fuel > 0,
            less == fuel - 1,
            fits(cx.t, es@, less),
            i <= es@.len(),
            parts@ == script_parts(cx, es@, i as int, less),
        decreases es@.len() - i,
    {
        let e: usize = es[i];
        assert(room(cx.t, es@[i as int] as int, less));
        if cx.t.is_gap(e) {
        } else if cx.t.token_is(e, SyntaxKind::Caret) || cx.t.token_is(e, SyntaxKind::Underscore) {
            parts.push(Ir::verbatim(cx.t.text(e)));
        } else {
            parts.push(lower_math_element(cx, e, MathSpacing::Script, Ghost(less)));
        }
        i = i + 1;
    }
    Ir::concat(parts)
}

} // verus!

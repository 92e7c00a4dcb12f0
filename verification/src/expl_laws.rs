//! How the lines of expl3 code keep the ink of what they are made of.

use vstd::prelude::*;

use crate::context::{gap_at, LowerCtx};
use crate::expl::{
    before_element, before_node, code, code_run, conditional_here, documentation, group_parts, inline_braces, is_documented,
    past_documented, past_element, past_gap, past_node, past_plain, past_token,
};
use crate::gap::{gap_end, lemma_gap_end};
use crate::ink::{ink, ink_of_a_sum, lemma_ink_of_one};
use crate::ink_laws::{gaps_are_white, lemma_loose_ink, lemma_run_ink, lemma_token_source, sources};
use crate::ir::{
    concat, concat2, concat3, flat_joined, flat_text, group, if_break, indent, lemma_concat_reads, space, verbatim, Layout,
};
use crate::lines::joined;
use crate::lower::{loose, node};
use crate::statements::{filled, hug_group, or_line, Braces, Code};
use crate::syntax::{SyntaxKind, Tree};

verus! {

// ---- what pieces read ----------------------------------------------------------------------

/// The ink of a layout.
pub open spec fn ink_of(l: Layout, margins: bool) -> Seq<char> {
    ink(flat_text(l), margins)
}

/// The ink of a list of layouts.
pub open spec fn ink_of_all(items: Seq<Layout>, margins: bool) -> Seq<char> {
    ink(flat_joined(items), margins)
}

/// Whether a layout is white space alone.
pub open spec fn airy(l: Layout, margins: bool) -> bool {
    ink_of(l, margins).len() == 0
}

proof fn lemma_push(items: Seq<Layout>, l: Layout, m: bool)
    ensures
        ink_of_all(items.push(l), m) == ink_of_all(items, m) + ink_of(l, m),
        airy(l, m) ==> ink_of_all(items.push(l), m) == ink_of_all(items, m),
{
    assert(items.push(l).drop_last() =~= items);
    ink_of_a_sum(flat_joined(items), flat_text(l), m);
    if airy(l, m) {
        assert(ink_of_all(items, m) + ink_of(l, m) =~= ink_of_all(items, m));
    }
}

proof fn lemma_none(m: bool)
    ensures
        ink_of_all(Seq::empty(), m) == Seq::<char>::empty(),
        airy(Layout::Nil, m),
        airy(Layout::Line, m),
        airy(Layout::SoftLine, m),
        airy(Layout::HardLine, m),
        airy(Layout::EmptyLine, m),
        airy(space(), m),
{
    lemma_ink_of_one(' ', m);
    assert(flat_joined(Seq::empty()) =~= Seq::<char>::empty());
    assert(flat_text(space()) == seq![' ']);
}

proof fn lemma_two(a: Layout, b: Layout, m: bool)
    ensures
        ink_of_all(seq![a, b], m) == ink_of(a, m) + ink_of(b, m),
        ink_of(concat2(a, b), m) == ink_of(a, m) + ink_of(b, m),
{
    let none = Seq::<Layout>::empty();
    lemma_none(m);
    lemma_push(none, a, m);
    lemma_push(none.push(a), b, m);
    assert(none.push(a).push(b) =~= seq![a, b]);
    assert(ink_of_all(none, m) + ink_of(a, m) =~= ink_of(a, m));
    lemma_concat_reads(seq![a, b]);
}

proof fn lemma_three(a: Layout, b: Layout, c: Layout, m: bool)
    ensures
        ink_of(concat3(a, b, c), m) == ink_of(a, m) + ink_of(b, m) + ink_of(c, m),
{
    lemma_two(a, b, m);
    lemma_push(seq![a, b], c, m);
    assert(seq![a, b].push(c) =~= seq![a, b, c]);
    lemma_concat_reads(seq![a, b, c]);
}

proof fn lemma_filled(parts: Seq<Layout>, sticky: bool, m: bool)
    ensures
        ink_of(filled(parts, sticky), m) == ink_of_all(parts, m),
{
    if parts.len() == 1 {
        lemma_none(m);
        lemma_push(Seq::empty(), parts[0], m);
        assert(Seq::<Layout>::empty().push(parts[0]) =~= parts);
        assert(ink_of_all(Seq::empty(), m) + ink_of(parts[0], m) =~= ink_of(parts[0], m));
    }
}

proof fn lemma_joined_ink(lines: Seq<Layout>, seps: Seq<Layout>, m: bool)
    requires
        lines.len() <= seps.len(),
        forall|k: int| 0 <= k < seps.len() ==> airy(#[trigger] seps[k], m),
    ensures
        ink_of_all(joined(lines, seps), m) == ink_of_all(lines, m),
    decreases lines.len(),
{
    if lines.len() > 1 {
        let head = lines.drop_last();
        lemma_joined_ink(head, seps, m);
        let sep = seps[lines.len() - 1];
        lemma_push(joined(head, seps), sep, m);
        lemma_push(joined(head, seps).push(sep), lines.last(), m);
        lemma_push(head, lines.last(), m);
        assert(head.push(lines.last()) =~= lines);
    }
}

// ---- the code so far -----------------------------------------------------------------------

/// The ink that has been read.
pub open spec fn held(s: Code, m: bool) -> Seq<char> {
    ink_of_all(s.lines, m) + ink_of_all(s.parts, m) + ink_of_all(s.atom, m)
}

/// What stands between lines and atoms is white space alone, and what is directly behind a block
/// starts a line.
pub open spec fn sound(s: Code, m: bool) -> bool {
    &&& s.ok()
    &&& airy(s.pending, m)
    &&& s.sep matches Some(sep) ==> airy(sep, m)
    &&& forall|k: int| 0 <= k < s.seps.len() ==> airy(#[trigger] s.seps[k], m)
    &&& s.after_block ==> s.at_start()
}

/// Whether the code has grown by some ink.
spec fn grown(s: Code, after: Code, more: Seq<char>, m: bool) -> bool {
    sound(after, m) && held(after, m) == held(s, m) + more
}

proof fn lemma_at_start(s: Code, m: bool)
    requires
        s.at_start(),
    ensures
        held(s, m) == ink_of_all(s.lines, m),
{
    lemma_none(m);
    assert(s.parts =~= Seq::<Layout>::empty());
    assert(s.atom =~= Seq::<Layout>::empty());
    assert(held(s, m) =~= ink_of_all(s.lines, m));
}

proof fn lemma_flushed(s: Code, m: bool)
    requires
        sound(s, m),
    ensures
        sound(s.flushed(), m),
        held(s.flushed(), m) == held(s, m),
        s.flushed().atom.len() == 0,
        s.flushed().lines == s.lines,
        s.flushed().seps == s.seps,
        s.flushed().pending == s.pending,
        s.flushed().after_block == s.after_block,
        s.flushed().parts.len() > 0 <==> !s.at_start(),
{
    reveal(Code::flushed);
    lemma_none(m);
    if s.atom.len() > 0 {
        let sep = or_line(s.sep);
        let spaced = if s.parts.len() > 0 { s.parts.push(sep) } else { s.parts };
        lemma_push(s.parts, sep, m);
        lemma_push(spaced, concat(s.atom), m);
        lemma_concat_reads(s.atom);
        assert(s.flushed().atom =~= Seq::<Layout>::empty());
        assert(held(s.flushed(), m) =~= held(s, m));
    }
}

proof fn lemma_with_line(s: Code, l: Layout, m: bool)
    requires
        sound(s, m),
        s.at_start(),
    ensures
        grown(s, s.with_line(l), ink_of(l, m), m),
        s.with_line(l).at_start(),
        s.with_line(l).lines.len() > 0,
        s.with_line(l).after_block == s.after_block,
        s.with_line(l).sep == s.sep,
{
    reveal(Code::with_line);
    let after = s.with_line(l);
    lemma_none(m);
    lemma_push(s.lines, l, m);
    lemma_at_start(s, m);
    lemma_at_start(after, m);
}

proof fn lemma_with_block(s: Code, l: Layout, m: bool)
    requires
        sound(s, m),
        s.at_start(),
    ensures
        grown(s, s.with_block(l), ink_of(l, m), m),
{
    reveal(Code::with_block);
    lemma_with_line(s, l, m);
    lemma_at_start(s.with_line(l), m);
    lemma_at_start(s.with_block(l), m);
}

proof fn lemma_committed(s: Code, m: bool)
    requires
        sound(s, m),
    ensures
        sound(s.committed(), m),
        held(s.committed(), m) == held(s, m),
        s.committed().at_start(),
        s.committed().lines.len() > 0 || s.at_start(),
        s.at_start() ==> s.committed().lines == s.lines,
        s.committed().after_block == s.after_block,
{
    reveal(Code::committed);
    reveal(Code::with_line);
    lemma_flushed(s, m);
    lemma_none(m);
    let f = s.flushed();
    let l = filled(f.parts, f.sticky);
    lemma_filled(f.parts, f.sticky, m);
    lemma_push(f.lines, l, m);
    assert(f.atom =~= Seq::<Layout>::empty());
    let after = s.committed();
    lemma_at_start(after, m);
    if f.parts.len() > 0 {
        assert(after.lines == f.lines.push(l));
        assert(held(f, m) =~= ink_of_all(f.lines, m) + ink_of_all(f.parts, m));
    } else {
        assert(after.lines == f.lines);
        lemma_at_start(f, m);
    }
}

proof fn lemma_past_block(s: Code, m: bool)
    requires
        sound(s, m),
    ensures
        sound(s.past_block(), m),
        held(s.past_block(), m) == held(s, m),
{
}

proof fn lemma_with_gap(s: Code, newlines: int, glue: bool, m: bool)
    requires
        sound(s, m),
    ensures
        sound(s.with_gap(newlines, glue), m),
        held(s.with_gap(newlines, glue), m) == held(s, m),
{
    reveal(Code::with_gap);
    lemma_none(m);
    let t = Code { after_block: s.after_block && newlines < 1, ..s };
    assert(sound(t, m));
    lemma_flushed(t, m);
}

proof fn lemma_with_boundary(s: Code, newlines: int, m: bool)
    requires
        sound(s, m),
    ensures
        sound(s.with_boundary(newlines), m),
        held(s.with_boundary(newlines), m) == held(s, m),
{
    reveal(Code::with_boundary);
    lemma_none(m);
    lemma_committed(s.past_block(), m);
}

proof fn lemma_with_piece(s: Code, l: Layout, m: bool)
    requires
        sound(s, m),
    ensures
        grown(s, s.with_piece(l), ink_of(l, m), m),
{
    lemma_push(s.atom, l, m);
    assert(held(s.with_piece(l), m) =~= held(s, m) + ink_of(l, m));
}

proof fn lemma_with_tie(s: Code, text: Seq<char>, glued: bool, m: bool)
    requires
        sound(s, m),
    ensures
        grown(s, s.with_tie(text, glued), ink(text, m), m),
{
    reveal(Code::with_tie);
    lemma_none(m);
    let t = Code { atom: s.atom.push(verbatim(text)), after_block: false, ..s };
    lemma_push(s.atom, verbatim(text), m);
    assert(held(t, m) =~= held(s, m) + ink(text, m));
    assert(sound(t, m));
    lemma_flushed(t, m);
}

proof fn lemma_last_line(lines: Seq<Layout>, l: Layout, more: Seq<char>, m: bool)
    requires
        lines.len() > 0,
        ink_of(l, m) == ink_of(lines.last(), m) + more,
    ensures
        ink_of_all(lines.drop_last().push(l), m) == ink_of_all(lines, m) + more,
{
    let head = lines.drop_last();
    lemma_push(head, l, m);
    lemma_push(head, lines.last(), m);
    assert(head.push(lines.last()) =~= lines);
    assert(ink_of_all(head.push(l), m) =~= ink_of_all(lines, m) + more);
}

proof fn lemma_with_comment(s: Code, text: Seq<char>, m: bool)
    requires
        sound(s, m),
    ensures
        grown(s, s.with_comment(text), ink(text, m), m),
{
    reveal(Code::with_comment);
    lemma_none(m);
    let own = verbatim(text);
    let after = s.with_comment(text);
    if s.after_block {
        let block = s.lines.last();
        lemma_two(block, own, m);
        lemma_three(block, space(), own, m);
        assert(ink_of(block, m) + ink_of(space(), m) + ink_of(own, m) =~= ink_of(block, m) + ink(text, m));
        lemma_last_line(s.lines, after.lines.last(), ink(text, m), m);
        assert(after.lines =~= s.lines.drop_last().push(after.lines.last()));
        lemma_at_start(s, m);
        lemma_at_start(after, m);
    } else if s.at_start() {
        let t = Code { atom: s.atom.push(own), ..s };
        lemma_push(s.atom, own, m);
        assert(held(t, m) =~= held(s, m) + ink(text, m));
        assert(sound(t, m));
        lemma_committed(t, m);
    } else {
        lemma_committed(s, m);
        let c = s.committed();
        let zero = Layout::ZeroWidth(if s.atom.len() == 0 { seq![' '] + text } else { text });
        ink_of_a_sum(seq![' '], text, m);
        lemma_ink_of_one(' ', m);
        assert(ink_of(zero, m) =~= ink(text, m));
        lemma_two(c.lines.last(), zero, m);
        lemma_last_line(c.lines, after.lines.last(), ink(text, m), m);
        assert(after.lines =~= c.lines.drop_last().push(after.lines.last()));
        lemma_at_start(c, m);
        lemma_at_start(after, m);
    }
}

proof fn lemma_with_guard(s: Code, l: Layout, m: bool)
    requires
        sound(s, m),
    ensures
        grown(s, s.with_guard(l), ink_of(l, m), m),
{
    reveal(Code::with_guard);
    lemma_committed(s.past_block(), m);
    let c = s.past_block().committed();
    lemma_push(c.atom, l, m);
    assert(held(s.with_guard(l), m) =~= held(c, m) + ink_of(l, m));
}

proof fn lemma_with_comment_lines(s: Code, docs: Seq<Layout>, k: int, m: bool)
    requires
        sound(s, m),
        0 <= k <= docs.len(),
    ensures
        grown(s, s.with_comment_lines(docs, k), ink_of_all(docs.take(k), m), m),
        s.with_comment_lines(docs, k).at_start(),
    decreases k,
{
    lemma_none(m);
    if k == 0 {
        lemma_committed(s.past_block(), m);
        assert(docs.take(0) =~= Seq::<Layout>::empty());
        assert(held(s, m) + ink_of_all(docs.take(0), m) =~= held(s, m));
    } else {
        lemma_with_comment_lines(s, docs, k - 1, m);
        let t = s.with_comment_lines(docs, k - 1);
        lemma_with_line(t, docs[k - 1], m);
        lemma_push(docs.take(k - 1), docs[k - 1], m);
        assert(docs.take(k - 1).push(docs[k - 1]) =~= docs.take(k));
        assert(held(s, m) + ink_of_all(docs.take(k - 1), m) + ink_of(docs[k - 1], m) =~= held(s, m) + ink_of_all(
            docs.take(k),
            m,
        ));
    }
}

proof fn lemma_with_argument_gap(s: Code, m: bool)
    requires
        sound(s, m),
    ensures
        sound(s.with_argument_gap(), m),
        held(s.with_argument_gap(), m) == held(s, m),
{
    reveal(Code::with_argument_gap);
    lemma_none(m);
    lemma_flushed(s, m);
}

/// What the line holds, before a block takes it over.
proof fn lemma_headed(s: Code, m: bool)
    requires
        sound(s, m),
    ensures
        sound(s.headed(), m),
        s.headed().at_start(),
        held(s, m) == held(s.headed(), m) + ink_of_all(s.flushed().parts, m),
        s.atom.len() == 0 ==> s.flushed().parts == s.parts,
{
    lemma_flushed(s, m);
    lemma_none(m);
    let f = s.flushed();
    assert(f.atom =~= Seq::<Layout>::empty());
    lemma_at_start(s.headed(), m);
    assert(held(f, m) =~= ink_of_all(f.lines, m) + ink_of_all(f.parts, m));
    reveal(Code::flushed);
}

proof fn lemma_with_trailing_conditional(s: Code, flat: Layout, exploded: Layout, m: bool)
    requires
        sound(s, m),
    ensures
        grown(s, s.with_trailing_conditional(flat, exploded), ink_of(flat, m), m),
{
    reveal(Code::with_trailing_conditional);
    lemma_none(m);
    lemma_headed(s, m);
    let sep = if s.atom.len() == 0 { or_line(s.sep) } else { Layout::Nil };
    let head = filled(s.flushed().parts, true);
    lemma_filled(s.flushed().parts, true, m);
    lemma_three(head, sep, flat, m);
    let l = group(if_break(concat3(head, sep, flat), concat3(head, Layout::HardLine, exploded)));
    assert(flat_text(if_break(concat3(head, sep, flat), concat3(head, Layout::HardLine, exploded))) == flat_text(
        concat3(head, sep, flat),
    ));
    assert(ink_of(l, m) == ink_of(concat3(head, sep, flat), m));
    lemma_with_block(s.headed(), l, m);
    assert(held(s.headed(), m) + ink_of(l, m) =~= held(s, m) + ink_of(flat, m));
}

/// The ink of a group whose parts are given.
pub open spec fn ink_of_braces(b: Braces, m: bool) -> Seq<char> {
    ink_of(b.open, m) + ink_of(b.body, m) + ink_of(b.close, m)
}

proof fn lemma_behind(b: Braces, head: Layout, sep: Layout, m: bool)
    requires
        airy(sep, m),
    ensures
        ink_of(b.behind(head, sep), m) == ink_of(head, m) + ink_of_braces(b, m),
{
    lemma_none(m);
    let gap = if b.spaced { space() } else { Layout::Nil };
    let parts = seq![head, sep] + b.inline();
    assert(parts =~= seq![head, sep].push(b.open).push(gap).push(b.body).push(gap).push(b.close));
    lemma_two(head, sep, m);
    let p2 = seq![head, sep];
    lemma_push(p2, b.open, m);
    lemma_push(p2.push(b.open), gap, m);
    lemma_push(p2.push(b.open).push(gap), b.body, m);
    lemma_push(p2.push(b.open).push(gap).push(b.body), gap, m);
    lemma_push(p2.push(b.open).push(gap).push(b.body).push(gap), b.close, m);
    lemma_concat_reads(parts);
    assert(ink_of(head, m) + ink_of(sep, m) + ink_of(b.open, m) + ink_of(b.body, m) + ink_of(b.close, m) =~= ink_of(head, m)
        + ink_of_braces(b, m));
}

proof fn lemma_with_trailing_group(s: Code, b: Braces, m: bool)
    requires
        sound(s, m),
        s.atom.len() == 0,
    ensures
        grown(s, s.with_trailing_group(b), ink_of_braces(b, m), m),
{
    reveal(Code::with_trailing_group);
    lemma_none(m);
    lemma_headed(s, m);
    let head = filled(s.parts, true);
    lemma_filled(s.parts, true, m);
    lemma_behind(b, head, or_line(s.sep), m);
    let l = b.behind(head, or_line(s.sep));
    lemma_with_block(s.headed(), l, m);
    assert(held(s.headed(), m) + ink_of(l, m) =~= held(s, m) + ink_of_braces(b, m));
}

proof fn lemma_with_trailing_command(s: Code, l: Layout, m: bool)
    requires
        sound(s, m),
        s.atom.len() == 0,
    ensures
        grown(s, s.with_trailing_command(l), ink_of(l, m), m),
{
    reveal(Code::with_trailing_command);
    lemma_none(m);
    lemma_headed(s, m);
    let sep = if s.sep == Some(Layout::SoftLine) || s.sep == Some(Layout::Nil) { Layout::Nil } else { space() };
    let head = filled(s.parts, s.sticky);
    lemma_filled(s.parts, s.sticky, m);
    lemma_three(head, sep, l, m);
    lemma_with_block(s.headed(), concat3(head, sep, l), m);
    assert(held(s.headed(), m) + ink_of(concat3(head, sep, l), m) =~= held(s, m) + ink_of(l, m));
}

proof fn lemma_with_hanging_block(s: Code, l: Layout, m: bool)
    requires
        sound(s, m),
    ensures
        grown(s, s.with_hanging_block(l), ink_of(l, m), m),
{
    reveal(Code::with_hanging_block);
    lemma_none(m);
    lemma_committed(s, m);
    let c = s.committed();
    lemma_at_start(c, m);
    if c.lines.len() > 0 {
        let line = indent(concat2(c.pending, l));
        lemma_two(c.pending, l, m);
        assert(ink_of(line, m) =~= ink_of(l, m));
        lemma_push(c.lines, line, m);
        lemma_at_start(s.with_hanging_block(l), m);
    } else {
        lemma_with_block(c, l, m);
    }
}

proof fn lemma_with_forced(s: Code, l: Layout, hang: bool, m: bool)
    requires
        sound(s, m),
        !s.after_block,
    ensures
        grown(s, s.with_forced(l, hang), ink_of(l, m), m),
{
    reveal(Code::with_forced);
    lemma_none(m);
    if s.atom.len() > 0 {
        let t = Code { atom: s.atom.push(l), ..s };
        lemma_push(s.atom, l, m);
        assert(held(t, m) =~= held(s, m) + ink_of(l, m));
        assert(sound(t, m));
        lemma_committed(t, m);
        lemma_at_start(t.committed(), m);
        lemma_at_start(s.with_forced(l, hang), m);
    } else if hang {
        lemma_with_hanging_block(s, l, m);
    } else if s.parts.len() > 0 {
        lemma_headed(s, m);
        let head = filled(s.parts, s.sticky);
        lemma_filled(s.parts, s.sticky, m);
        let whole = hug_group(concat3(head, or_line(s.sep), l));
        lemma_three(head, or_line(s.sep), l, m);
        assert(ink_of(whole, m) == ink_of(concat3(head, or_line(s.sep), l), m));
        lemma_with_block(s.headed(), whole, m);
        assert(held(s.headed(), m) + ink_of(whole, m) =~= held(s, m) + ink_of(l, m));
    } else {
        lemma_committed(s, m);
        lemma_with_block(s.committed(), l, m);
    }
}

proof fn lemma_with_soft(s: Code, l: Layout, hang: bool, m: bool)
    requires
        sound(s, m),
        !s.after_block,
    ensures
        grown(s, s.with_soft(l, hang), ink_of(l, m), m),
{
    reveal(Code::with_soft);
    lemma_none(m);
    let deep = if s.parts.len() == 0 { indent(concat2(s.pending, l)) } else { indent(concat2(Layout::Line, l)) };
    lemma_two(s.pending, l, m);
    lemma_two(Layout::Line, l, m);
    assert(ink_of(deep, m) =~= ink_of(l, m));
    lemma_push(s.atom, l, m);
    lemma_push(s.atom, deep, m);
    assert(held(s.with_soft(l, hang), m) =~= held(s, m) + ink_of(l, m));
}

// ---- elements ------------------------------------------------------------------------------

/// Whether every layout that code may give an element keeps its ink: the element's own, the one
/// with its branches apart, its parts where it is a group, and its comments with the rest of it
/// where it has comments before it.
#[verifier::opaque]
pub open spec fn keeps_in_code(cx: LowerCtx, e: int, fuel: nat) -> bool {
    let m = cx.is_dtx;
    let own = ink(cx.t.src(e), m);
    &&& ink_of(node(cx, e, fuel), m) == own
    &&& conditional_here(cx, e, fuel) matches Some(l) ==> ink_of(l, m) == own
    &&& inline_braces(group_parts(cx, e, SyntaxKind::LBrace, SyntaxKind::RBrace, fuel)) matches Some(b) ==> ink_of_braces(
        b,
        m,
    ) == own
    &&& is_documented(cx.t, e) ==> fuel > 0 && ink_of_all(doc_lines(cx.t, e), m) + ink_of(undocumented(cx, e, fuel), m) == own
}

/// The comments before a command.
pub open spec fn doc_lines(t: &Tree, e: int) -> Seq<Layout> {
    documentation(t, t.kids(e), t.kids(e).len() as int).0
}

/// The layout of a command without the comments before it.
#[verifier::opaque]
pub open spec fn undocumented(cx: LowerCtx, e: int, fuel: nat) -> Layout {
    code(cx, documentation(cx.t, cx.t.kids(e), cx.t.kids(e).len() as int).1, false, (fuel - 1) as nat)
}

/// Comments on lines of their own, and what they stand before.
spec fn with_documented(s: Code, docs: Seq<Layout>, l: Layout) -> Code {
    let after = s.with_comment_lines(docs, docs.len() as int);
    if l is Nil {
        after
    } else {
        after.with_piece(l)
    }
}

proof fn lemma_with_documented(s: Code, docs: Seq<Layout>, l: Layout, m: bool)
    requires
        sound(s, m),
    ensures
        grown(s, with_documented(s, docs, l), ink_of_all(docs, m) + ink_of(l, m), m),
{
    lemma_with_comment_lines(s, docs, docs.len() as int, m);
    assert(docs.take(docs.len() as int) =~= docs);
    let after = s.with_comment_lines(docs, docs.len() as int);
    lemma_with_piece(after, l, m);
    lemma_none(m);
    assert(held(s, m) + ink_of_all(docs, m) + ink_of(l, m) =~= held(s, m) + (ink_of_all(docs, m) + ink_of(l, m)));
    if l is Nil {
        assert(held(after, m) + ink_of(l, m) =~= held(after, m));
    }
}

proof fn lemma_documented_path(cx: LowerCtx, e: int, s: Code, fuel: nat)
    requires
        fuel > 0,
    ensures
        past_documented(cx, e, s, fuel) == with_documented(s, doc_lines(cx.t, e), undocumented(cx, e, fuel)),
{
    reveal(undocumented);
}

proof fn lemma_past_token(cx: LowerCtx, es: Seq<usize>, i: int, s: Code, structural: bool)
    requires
        sound(s, cx.is_dtx),
        cx.t.k(es[i] as int) == SyntaxKind::DocMargin ==> ink(cx.t.txt(es[i] as int), cx.is_dtx).len() == 0,
    ensures
        grown(s, past_token(cx, es, i, s, structural), ink(cx.t.txt(es[i] as int), cx.is_dtx), cx.is_dtx),
{
    let m = cx.is_dtx;
    let e = es[i] as int;
    lemma_loose_ink(cx, e);
    lemma_with_tie(s, cx.t.txt(e), crate::expl::glued_at(cx.t, es, gap_end(cx.t, es, i + 1), structural), m);
    lemma_with_comment(s, cx.t.txt(e), m);
    lemma_with_guard(s, loose(cx, e), m);
    lemma_with_piece(s, loose(cx, e), m);
}

proof fn lemma_past_documented(cx: LowerCtx, e: int, s: Code, fuel: nat)
    requires
        sound(s, cx.is_dtx),
        is_documented(cx.t, e),
        keeps_in_code(cx, e, fuel),
    ensures
        grown(s, past_documented(cx, e, s, fuel), ink(cx.t.src(e), cx.is_dtx), cx.is_dtx),
{
    reveal(keeps_in_code);
    lemma_documented_path(cx, e, s, fuel);
    lemma_with_documented(s, doc_lines(cx.t, e), undocumented(cx, e, fuel), cx.is_dtx);
}

proof fn lemma_past_plain(t: &Tree, es: Seq<usize>, i: int, s: Code, structural: bool, l: Layout, m: bool)
    requires
        sound(s, m),
        !s.after_block,
    ensures
        grown(s, past_plain(t, es, i, s, structural, l), ink_of(l, m), m),
{
    let hang = t.k(es[i] as int) == SyntaxKind::Group && s.atom.len() == 0;
    lemma_with_piece(s, l, m);
    if s.atom.len() == 0 {
        lemma_with_trailing_command(s, l, m);
    }
    lemma_with_forced(s, l, hang, m);
    lemma_with_soft(s, l, hang, m);
}

#[verifier::spinoff_prover]
proof fn lemma_past_node(cx: LowerCtx, es: Seq<usize>, i: int, s: Code, structural: bool, fuel: nat)
    requires
        sound(s, cx.is_dtx),
        !s.after_block,
        keeps_in_code(cx, es[i] as int, fuel),
    ensures
        grown(s, past_node(cx, es, i, s, structural, fuel).0, ink(cx.t.src(es[i] as int), cx.is_dtx), cx.is_dtx),
{
    reveal(keeps_in_code);
    let m = cx.is_dtx;
    let e = es[i] as int;
    let l = node(cx, e, fuel);
    lemma_past_plain(cx.t, es, i, s, structural, l, m);
    if let Some(c) = conditional_here(cx, e, fuel) {
        if s.at_start() {
            lemma_with_block(s, c, m);
        }
        lemma_with_trailing_conditional(s, l, c, m);
    }
    if let Some(b) = inline_braces(group_parts(cx, e, SyntaxKind::LBrace, SyntaxKind::RBrace, fuel)) {
        if s.atom.len() == 0 {
            lemma_with_trailing_group(s, b, m);
        }
    }
}

#[verifier::spinoff_prover]
proof fn lemma_past_element(cx: LowerCtx, es: Seq<usize>, i: int, s: Code, structural: bool, fuel: nat)
    requires
        sound(s, cx.is_dtx),
        cx.t.tok(es[i] as int) ==> cx.t.src(es[i] as int) == cx.t.txt(es[i] as int),
        cx.t.k(es[i] as int) == SyntaxKind::DocMargin ==> ink(cx.t.txt(es[i] as int), cx.is_dtx).len() == 0,
        !cx.t.tok(es[i] as int) ==> keeps_in_code(cx, es[i] as int, fuel),
    ensures
        grown(s, past_element(cx, es, i, s, structural, fuel), ink(cx.t.src(es[i] as int), cx.is_dtx), cx.is_dtx),
{
    let m = cx.is_dtx;
    let e = es[i] as int;
    if cx.t.tok(e) {
        lemma_past_token(cx, es, i, s, structural);
        lemma_committed(past_token(cx, es, i, s, structural), m);
    } else if is_documented(cx.t, e) {
        lemma_past_documented(cx, e, s, fuel);
        lemma_committed(past_documented(cx, e, s, fuel), m);
    } else {
        lemma_past_block(s, m);
        lemma_with_argument_gap(s.past_block(), m);
        reveal(Code::with_argument_gap);
        lemma_flushed(s.past_block(), m);
        let b = before_node(cx.t, es, i, s, structural);
        assert(!b.after_block);
        lemma_past_node(cx, es, i, b, structural, fuel);
        lemma_committed(past_node(cx, es, i, b, structural, fuel).0, m);
    }
}

#[verifier::spinoff_prover]
#[verifier::rlimit(60)]
proof fn lemma_code_run(cx: LowerCtx, es: Seq<usize>, i: int, s: Code, structural: bool, fuel: nat)
    requires
        cx.t.wf(),
        gaps_are_white(cx.t, cx.is_dtx),
        0 <= i <= es.len(),
        sound(s, cx.is_dtx),
        forall|k: int| 0 <= k < es.len() ==> (#[trigger] es[k]) < cx.t.n(),
        forall|k: int|
            0 <= k < es.len() ==> cx.t.k(#[trigger] es[k] as int) == SyntaxKind::DocMargin ==> cx.t.tok(es[k] as int),
        forall|k: int| 0 <= k < es.len() && !cx.t.tok(#[trigger] es[k] as int) ==> keeps_in_code(cx, es[k] as int, fuel),
    ensures
        grown(s, code_run(cx, es, i, s, structural, fuel), ink(sources(cx.t, es, i), cx.is_dtx), cx.is_dtx),
    decreases es.len() - i,
{
    let m = cx.is_dtx;
    if i == es.len() {
        assert(sources(cx.t, es, i) =~= Seq::<char>::empty());
        assert(held(s, m) + ink(sources(cx.t, es, i), m) =~= held(s, m));
    } else {
        let e = es[i] as int;
        let now = before_element(cx.t, es, i, s, structural);
        assert(sound(now, m) && held(now, m) == held(s, m));
        lemma_gap_end(cx.t, es, i);
        if cx.t.gap(e) {
            assert(gap_at(cx.t, es, i));
            let end = gap_end(cx.t, es, i);
            lemma_with_boundary(now, crate::gap::gap_newlines(cx.t, es, i), m);
            lemma_with_gap(
                now,
                crate::gap::gap_newlines(cx.t, es, i),
                (!structural && crate::expl::bare_argument(cx.t, es, end)) || crate::expl::glued_at(cx.t, es, end, structural),
                m,
            );
            lemma_run_ink(cx.t, es, i, m);
            lemma_code_run(cx, es, end, past_gap(cx.t, es, i, now, structural), structural, fuel);
        } else {
            if cx.t.tok(e) {
                lemma_token_source(cx.t, e);
                assert(cx.t.k(e) == SyntaxKind::DocMargin ==> cx.t.tok_is(e, SyntaxKind::DocMargin));
            }
            lemma_past_element(cx, es, i, now, structural, fuel);
            let next = past_element(cx, es, i, now, structural, fuel);
            lemma_code_run(cx, es, i + 1, next, structural, fuel);
            ink_of_a_sum(cx.t.src(e), sources(cx.t, es, i + 1), m);
            assert(held(s, m) + ink(cx.t.src(e), m) + ink(sources(cx.t, es, i + 1), m) =~= held(s, m) + ink(
                sources(cx.t, es, i),
                m,
            ));
        }
    }
}

/// Code keeps the ink of its elements, in order, where the layouts that it gives them do.
pub proof fn code_keeps_the_ink(cx: LowerCtx, es: Seq<usize>, structural: bool, fuel: nat)
    requires
        cx.t.wf(),
        gaps_are_white(cx.t, cx.is_dtx),
        forall|k: int| 0 <= k < es.len() ==> (#[trigger] es[k]) < cx.t.n(),
        forall|k: int|
            0 <= k < es.len() ==> cx.t.k(#[trigger] es[k] as int) == SyntaxKind::DocMargin ==> cx.t.tok(es[k] as int),
        forall|k: int| 0 <= k < es.len() && !cx.t.tok(#[trigger] es[k] as int) ==> keeps_in_code(cx, es[k] as int, fuel),
    ensures
        ink(flat_text(code(cx, es, structural, fuel)), cx.is_dtx) == ink(sources(cx.t, es, 0), cx.is_dtx),
{
    let m = cx.is_dtx;
    let s = Code::start();
    lemma_none(m);
    lemma_at_start(s, m);
    assert(sound(s, m));
    lemma_code_run(cx, es, 0, s, structural, fuel);
    let all = code_run(cx, es, 0, s, structural, fuel);
    lemma_committed(all, m);
    let done = all.committed();
    lemma_at_start(done, m);
    lemma_joined_ink(done.lines, done.seps, m);
    lemma_concat_reads(joined(done.lines, done.seps));
    assert(held(s, m) + ink(sources(cx.t, es, 0), m) =~= ink(sources(cx.t, es, 0), m));
}

/// A tie is never parted from what stands directly before it: it ends the atom that is being read.
/// Behind it a line may break, but no space is written.
pub proof fn ties_stay_with_what_stands_before_them(s: Code, text: Seq<char>, glued: bool)
    ensures
        ({
            let after = s.with_tie(text, glued);
            &&& after.atom.len() == 0
            &&& after.parts.len() > 0
            &&& after.parts.last() == concat(s.atom.push(verbatim(text)))
            &&& after.sep == Some(if glued { Layout::Nil } else { Layout::SoftLine })
            &&& s.parts.len() == 0 ==> after.parts.len() == 1
            &&& after.lines == s.lines
        }),
{
    reveal(Code::with_tie);
    reveal(Code::flushed);
}

} // verus!

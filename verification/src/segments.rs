//! Groups whose entries are separated by commas or blanks.

use vstd::prelude::*;

use crate::context::{fits, room, LowerCtx};
use crate::flatten::{framing_stripped, strip_virtual_dtx_framing};
use crate::gap::{gap_end, gap_of, is_trimmable_break, lemma_gap_end, trimmable, Gap, Trivia};
use crate::groups::{bracketed, lower_bracketed};
use crate::ir::{concat, concat3, flat_joined, flat_text, forces_break, group, if_break, indent, space, verbatim, Ir, IrList, Layout};
use crate::lower::{loose, lower_loose_token, lower_node, node};
use crate::predicates::{
    contains_doc_margin, contains_token, doc_margin_opens_line, has_tok, margin_inside, multi_line, opens_line,
    spans_multiple_lines,
};
use crate::syntax::{SyntaxKind, Tree};
use crate::text::{contains_char, ends_with, has_tail};

verus! {

// ---- entries -------------------------------------------------------------------------------

/// Whether the piece separates two entries.
pub open spec fn separates(l: Layout) -> bool {
    l is Line || l is TightLine || l is SoftLine
}

pub fn is_segment_separator(ir: &Ir) -> (r: bool)
    ensures
        r == separates(ir@),
{
    match ir {
        Ir::Line => true,
        Ir::TightLine => true,
        Ir::SoftLine => true,
        _ => false,
    }
}

/// Pieces of a word with one more, behind a tight separator.
pub open spec fn with_entry(pieces: Seq<Layout>, l: Layout) -> Seq<Layout> {
    if pieces.len() > 0 {
        pieces.push(Layout::TightLine).push(l)
    } else {
        pieces.push(l)
    }
}

/// Whether the comma at `i` ends an entry: it stands directly behind one. The entry of a comma at
/// the start is the one that the word goes on with, if any is `open`.
pub open spec fn ends_entry(text: Seq<char>, open: bool, i: int) -> bool {
    text[i] == ',' && if i == 0 {
        open
    } else {
        text[i - 1] != ','
    }
}

/// The pieces of a word that is cut behind each entry, once the characters from `i` on are
/// behind too. The piece in progress starts at `start`. The commas of empty entries stay with
/// the next piece.
pub open spec fn word_pieces(text: Seq<char>, open: bool, i: int, start: int, pieces: Seq<Layout>) -> Seq<Layout>
    decreases text.len() - i,
{
    if i < 0 || i >= text.len() {
        if 0 <= start < text.len() {
            with_entry(pieces, verbatim(text.subrange(start, text.len() as int)))
        } else {
            pieces
        }
    } else if ends_entry(text, open, i) {
        word_pieces(text, open, i + 1, i + 1, with_entry(pieces, verbatim(text.subrange(start, i + 1))))
    } else {
        word_pieces(text, open, i + 1, start, pieces)
    }
}

/// The pieces of a word of a delimited body.
pub open spec fn entry_word(text: Seq<char>, normalize: bool, entry_open: bool) -> Seq<Layout> {
    if !normalize || !text.contains(',') {
        seq![verbatim(text)]
    } else {
        word_pieces(text, entry_open, 0, 0, Seq::empty())
    }
}

proof fn lemma_entry_reads(pieces: Seq<Layout>, text: Seq<char>)
    ensures
        flat_joined(with_entry(pieces, verbatim(text))) == flat_joined(pieces) + text,
{
    let l = verbatim(text);
    assert(flat_text(l) == text);
    assert(flat_text(Layout::TightLine) =~= Seq::<char>::empty());
    let apart = pieces.push(Layout::TightLine);
    assert(apart.drop_last() =~= pieces);
    assert(flat_joined(apart) == flat_joined(pieces) + flat_text(Layout::TightLine));
    assert(flat_joined(apart) =~= flat_joined(pieces));
    assert(apart.push(l).drop_last() =~= apart);
    assert(pieces.push(l).drop_last() =~= pieces);
    assert(flat_joined(apart.push(l)) == flat_joined(apart) + flat_text(l));
    assert(flat_joined(pieces.push(l)) == flat_joined(pieces) + flat_text(l));
}

proof fn lemma_pieces_read(text: Seq<char>, open: bool, i: int, start: int, pieces: Seq<Layout>)
    requires
        0 <= start <= i <= text.len(),
    ensures
        flat_joined(word_pieces(text, open, i, start, pieces)) == flat_joined(pieces) + text.subrange(
            start,
            text.len() as int,
        ),
    decreases text.len() - i,
{
    let n = text.len() as int;
    if i == n {
        lemma_entry_reads(pieces, text.subrange(start, n));
        if start == n {
            assert(flat_joined(pieces) + text.subrange(start, n) =~= flat_joined(pieces));
        }
    } else if ends_entry(text, open, i) {
        let piece = text.subrange(start, i + 1);
        lemma_entry_reads(pieces, piece);
        lemma_pieces_read(text, open, i + 1, i + 1, with_entry(pieces, verbatim(piece)));
        assert(flat_joined(pieces) + piece + text.subrange(i + 1, n) =~= flat_joined(pieces) + text.subrange(start, n));
    } else {
        lemma_pieces_read(text, open, i + 1, start, pieces);
    }
}

/// Cutting a word into entries loses nothing of it.
pub proof fn entries_make_up_the_word(text: Seq<char>, normalize: bool, open: bool)
    ensures
        flat_joined(entry_word(text, normalize, open)) == text,
{
    lemma_entry_reads(Seq::empty(), text);
    assert(flat_joined(Seq::<Layout>::empty()) + text =~= text);
    assert(Seq::<Layout>::empty().push(verbatim(text)) =~= seq![verbatim(text)]);
    lemma_pieces_read(text, open, 0, 0, Seq::empty());
    assert(text.subrange(0, text.len() as int) =~= text);
}

/// Adds the pieces of a word, and says how many separators are among them.
pub fn push_entry_word(text: &str, normalize: bool, parts: &mut IrList, entry_open: bool) -> (r: usize)
    ensures
        final(parts)@ == old(parts)@ + entry_word(text@, normalize, entry_open),
        r == entry_word(text@, normalize, entry_open).len() / 2,
{
    let ghost before = parts@;
    if !normalize || !contains_char(text, ',') {
        parts.push(Ir::verbatim(text));
        assert(parts@ =~= before + seq![verbatim(text@)]);
        return 0;
    }
    let n: usize = text.unicode_len();
    let mut start: usize = 0;
    let mut pushed: usize = 0;
    let ghost mut pieces: Seq<Layout> = Seq::empty();
    let mut i: usize = 0;
    assert(parts@ =~= before + pieces);
    while i < n
        invariant
            n == text@.len(),
            start <= i <= n,
            pushed <= i,
            parts@ == before + pieces,
            pieces.len() == if pushed == 0 { 0int } else { 2 * pushed - 1 },
            word_pieces(text@, entry_open, i as int, start as int, pieces) == word_pieces(
                text@,
                entry_open,
                0,
                0,
                Seq::empty(),
            ),
        decreases n - i,
    {
        let ends = text.get_char(i) == ',' && if i == 0 {
            entry_open
        } else {
            text.get_char(i - 1) != ','
        };
        if ends {
            let piece = Ir::verbatim(text.substring_char(start, i + 1));
            let ghost was = pieces;
            if pushed > 0 {
                parts.push(Ir::TightLine);
            }
            parts.push(piece);
            proof {
                pieces = with_entry(was, piece@);
                assert(parts@ =~= before + pieces);
            }
            pushed = pushed + 1;
            start = i + 1;
        }
        i = i + 1;
    }
    if start < n {
        let piece = Ir::verbatim(text.substring_char(start, n));
        let ghost was = pieces;
        if pushed > 0 {
            parts.push(Ir::TightLine);
        }
        parts.push(piece);
        proof {
            pieces = with_entry(was, piece@);
            assert(parts@ =~= before + pieces);
        }
        return pushed;
    }
    if pushed == 0 {
        0
    } else {
        pushed - 1
    }
}

// ---- padding -------------------------------------------------------------------------------

/// The padding at the front of a body, and what is behind it. `padding` is what has been found
/// already.
pub open spec fn front_padding(parts: Seq<Layout>, padding: Layout) -> (Layout, Seq<Layout>)
    decreases parts.len(),
{
    if parts.len() > 0 && trimmable(parts[0]) {
        front_padding(
            parts.subrange(1, parts.len() as int),
            if padding is Nil {
                parts[0]
            } else {
                padding
            },
        )
    } else {
        (padding, parts)
    }
}

/// The padding at the back of a body, and what is before it.
pub open spec fn back_padding(parts: Seq<Layout>, padding: Layout) -> (Layout, Seq<Layout>)
    decreases parts.len(),
{
    if parts.len() > 0 && trimmable(parts.last()) {
        back_padding(
            parts.drop_last(),
            if padding is Nil {
                parts.last()
            } else {
                padding
            },
        )
    } else {
        (padding, parts)
    }
}

/// Takes the padding off the front of a body.
pub fn peel_leading_padding(parts: &mut IrList) -> (r: Ir)
    ensures
        (r@, final(parts)@) == front_padding(old(parts)@, Layout::Nil),
{
    let mut padding = Ir::Nil;
    let mut i: usize = 0;
    let n: usize = parts.len();
    let ghost all = parts@;
    assert(all.subrange(0, n as int) =~= all);
    while i < n && is_trimmable_break(&parts.at(i))
        invariant
            parts@ == all,
            n == all.len(),
            i <= n,
            front_padding(all.subrange(i as int, n as int), padding@) == front_padding(all, Layout::Nil),
        decreases n - i,
    {
        let ghost left = all.subrange(i as int, n as int);
        assert(left.subrange(1, left.len() as int) =~= all.subrange(i + 1, n as int));
        assert(left[0] == all[i as int]);
        if padding.is_nil() {
            padding = parts.at(i);
        }
        i = i + 1;
    }
    let mut rest = IrList::new();
    let mut j: usize = i;
    while j < n
        invariant
            parts@ == all,
            n == all.len(),
            i <= j <= n,
            rest@ == all.subrange(i as int, j as int),
        decreases n - j,
    {
        rest.push(parts.at(j));
        assert(all.subrange(i as int, j + 1) =~= all.subrange(i as int, j as int).push(all[j as int]));
        j = j + 1;
    }
    proof {
        let left = all.subrange(i as int, n as int);
        if left.len() > 0 {
            assert(left[0] == all[i as int]);
        }
    }
    *parts = rest;
    padding
}

/// Takes the padding off the back of a body.
pub fn peel_trailing_padding(parts: &mut IrList) -> (r: Ir)
    ensures
        (r@, final(parts)@) == back_padding(old(parts)@, Layout::Nil),
{
    let ghost all = parts@;
    let mut padding = Ir::Nil;
    while parts.len() > 0 && is_trimmable_break(&parts.at(parts.len() - 1))
        invariant
            back_padding(parts@, padding@) == back_padding(all, Layout::Nil),
        decreases parts@.len(),
    {
        let last = parts.pop();
        if padding.is_nil() {
            padding = last;
        }
    }
    padding
}

// ---- a delimited body ----------------------------------------------------------------------

/// What is known of a delimited body.
pub struct Body {
    pub open: Layout,
    pub close: Layout,
    /// Its pieces, with the separators between its entries.
    pub parts: Seq<Layout>,
    /// How many separators there are.
    pub splits: int,
    /// Whether a bracket has been opened in it.
    pub nested: bool,
    /// Whether a comma was the last thing.
    pub after_comma: bool,
    /// Whether the entry in progress has content.
    pub entry_open: bool,
}

pub open spec fn no_body() -> Body {
    Body {
        open: Layout::Nil,
        close: Layout::Nil,
        parts: Seq::empty(),
        splits: 0,
        nested: false,
        after_comma: false,
        entry_open: false,
    }
}

impl Body {
    pub open spec fn with_content(self, l: Layout) -> Body {
        Body { parts: self.parts.push(l), after_comma: false, entry_open: true, ..self }
    }
}

/// What is known of the body once the elements from `i` on are behind, or nothing where it has to
/// be put on lines of its own.
pub open spec fn segmenting(
    cx: LowerCtx,
    es: Seq<usize>,
    i: int,
    s: Body,
    open: SyntaxKind,
    close: SyntaxKind,
    normalize: bool,
    fuel: nat,
) -> Option<Body>
    decreases fuel, 70int, es.len() - i,
{
    if i < 0 || i >= es.len() {
        Some(s)
    } else {
        proof {
            lemma_gap_end(cx.t, es, i);
        }
        let t = cx.t;
        let e = es[i] as int;
        if t.tok_is(e, open) && s.open is Nil {
            segmenting(cx, es, i + 1, Body { open: verbatim(t.txt(e)), ..s }, open, close, normalize, fuel)
        } else if t.tok_is(e, close) {
            segmenting(cx, es, i + 1, Body { close: verbatim(t.txt(e)), ..s }, open, close, normalize, fuel)
        } else if t.tok_is(e, SyntaxKind::LBracket) {
            let next = Body { nested: true, ..s.with_content(verbatim(t.txt(e))) };
            segmenting(cx, es, i + 1, next, open, close, normalize, fuel)
        } else if t.gap(e) {
            let gap = gap_of(t, es, i);
            if gap is Blank {
                None
            } else {
                let next = if s.after_comma && !s.nested {
                    Body {
                        parts: s.parts.push(
                            if normalize {
                                Layout::TightLine
                            } else {
                                gap.separator()
                            },
                        ),
                        splits: s.splits + 1,
                        after_comma: false,
                        entry_open: false,
                        ..s
                    }
                } else {
                    Body { parts: s.parts.push(verbatim(gap.flat())), after_comma: false, ..s }
                };
                segmenting(cx, es, gap_end(t, es, i), next, open, close, normalize, fuel)
            }
        } else if t.tok_is(e, SyntaxKind::Comment) {
            None
        } else if t.tok_is(e, SyntaxKind::Word) && !s.nested {
            let pieces = entry_word(t.txt(e), normalize, s.entry_open);
            let comma = has_tail(t.txt(e), seq![',']);
            let next = Body {
                parts: s.parts + pieces,
                splits: s.splits + pieces.len() / 2,
                after_comma: comma,
                entry_open: !comma,
                ..s
            };
            segmenting(cx, es, i + 1, next, open, close, normalize, fuel)
        } else if t.tok(e) {
            segmenting(cx, es, i + 1, s.with_content(loose(cx, e)), open, close, normalize, fuel)
        } else {
            let l = node(cx, e, fuel);
            if forces_break(l) {
                None
            } else {
                segmenting(cx, es, i + 1, s.with_content(l), open, close, normalize, fuel)
            }
        }
    }
}

/// The pieces without the separators at their end, how many separators are left, and whether a
/// separator that reads as a space was among those.
pub open spec fn without_separators(parts: Seq<Layout>, splits: int, gap: bool) -> (Seq<Layout>, int, bool)
    decreases parts.len(),
{
    if parts.len() > 0 && separates(parts.last()) {
        without_separators(
            parts.drop_last(),
            if splits > 0 {
                splits - 1
            } else {
                0
            },
            gap || parts.last() is Line,
        )
    } else {
        (parts, splits, gap)
    }
}

/// A delimited body cut at its commas, or nothing where it has to be put on lines of its own.
pub open spec fn segments(cx: LowerCtx, n: int, open: SyntaxKind, close: SyntaxKind, normalize: bool, fuel: nat) -> Option<
    Body,
>
    decreases fuel, 10int, 0int,
{
    if fuel == 0 {
        None
    } else {
        match segmenting(
            cx,
            framing_stripped(cx, cx.t.kids(n)),
            0,
            no_body(),
            open,
            close,
            normalize,
            (fuel - 1) as nat,
        ) {
            Some(s) => {
                let (parts, splits, gap) = without_separators(s.parts, s.splits, false);
                Some(
                    Body {
                        parts: if gap {
                            parts.push(space())
                        } else {
                            parts
                        },
                        splits,
                        ..s
                    },
                )
            },
            None => None,
        }
    }
}

/// A delimited body cut at its commas.
pub struct GroupSegments {
    pub open: Ir,
    pub parts: IrList,
    pub close: Ir,
    pub splits: usize,
}

struct BodyState {
    open: Ir,
    close: Ir,
    parts: IrList,
    splits: usize,
    nested: bool,
    after_comma: bool,
    entry_open: bool,
}

impl BodyState {
    spec fn v(&self) -> Body {
        Body {
            open: self.open@,
            close: self.close@,
            parts: self.parts@,
            splits: self.splits as int,
            nested: self.nested,
            after_comma: self.after_comma,
            entry_open: self.entry_open,
        }
    }

    fn push_content(&mut self, ir: Ir)
        ensures
            final(self).v() == old(self).v().with_content(ir@),
    {
        self.parts.push(ir);
        self.after_comma = false;
        self.entry_open = true;
    }
}

pub fn segment_delimited_body(
    cx: LowerCtx,
    n: usize,
    open: SyntaxKind,
    close: SyntaxKind,
    normalize: bool,
    Ghost(fuel): Ghost<nat>,
) -> (r: Option<GroupSegments>)
    requires
        cx.ok(),
        room(cx.t, n as int, fuel),
    ensures
        r is Some == segments(cx, n as int, open, close, normalize, fuel) is Some,
        r matches Some(s) ==> {
            let body = segments(cx, n as int, open, close, normalize, fuel)->0;
            s.open@ == body.open && s.close@ == body.close && s.parts@ == body.parts && s.splits == body.splits
        },
    decreases fuel, 10int, 0int,
{
    proof {
        reveal_strlit(",");
        assert(","@ =~= seq![',']);
    }
    let ghost less = (fuel - 1) as nat;
    let es = strip_virtual_dtx_framing(cx, cx.children(n), Ghost(less));
    let mut s = BodyState {
        open: Ir::Nil,
        close: Ir::Nil,
        parts: IrList::new(),
        splits: 0,
        nested: false,
        after_comma: false,
        entry_open: false,
    };
    let ghost start = no_body();
    assert(s.v() == start);
    let mut i: usize = 0;
    while i < es.len()
        invariant
            cx.ok(),
            fuel > 0,
            less == fuel - 1,
            ","@ == seq![','],
            es@ == framing_stripped(cx, cx.t.kids(n as int)),
            fits(cx.t, es@, less),
            i <= es@.len(),
            start == no_body(),
            s.splits <= s.parts@.len(),
            segmenting(cx, es@, i as int, s.v(), open, close, normalize, less) == segmenting(
                cx,
                es@,
                0,
                start,
                open,
                close,
                normalize,
                less,
            ),
        decreases es@.len() - i,
    {
        let e: usize = es[i];
        assert(room(cx.t, es@[i as int] as int, less));
        if cx.t.token_is(e, open) && s.open.is_nil() {
            s.open = Ir::verbatim(cx.t.text(e));
            i = i + 1;
        } else if cx.t.token_is(e, close) {
            s.close = Ir::verbatim(cx.t.text(e));
            i = i + 1;
        } else if cx.t.token_is(e, SyntaxKind::LBracket) {
            s.push_content(Ir::verbatim(cx.t.text(e)));
            s.nested = true;
            i = i + 1;
        } else if cx.t.is_gap(e) {
            let (gap, end) = cx.consume_gap(&es, i);
            if gap.is_blank() {
                return None;
            }
            if s.after_comma && !s.nested {
                let n_parts: usize = s.parts.len();
                s.parts.push(
                    if normalize {
                        Ir::TightLine
                    } else {
                        gap.separator()
                    },
                );
                let n_now: usize = s.parts.len();
                s.splits = s.splits + 1;
                s.entry_open = false;
            } else {
                s.parts.push(Ir::verbatim(gap.flat()));
            }
            s.after_comma = false;
            i = end;
        } else if cx.t.token_is(e, SyntaxKind::Comment) {
            return None;
        } else if cx.t.token_is(e, SyntaxKind::Word) && !s.nested {
            let text = cx.t.text(e);
            let added: usize = push_entry_word(text, normalize, &mut s.parts, s.entry_open);
            let n_now: usize = s.parts.len();
            s.splits = s.splits + added;
            let comma = ends_with(text, ",");
            s.after_comma = comma;
            s.entry_open = !comma;
            i = i + 1;
        } else if cx.t.is_token(e) {
            s.push_content(lower_loose_token(cx, e));
            i = i + 1;
        } else {
            let ir = lower_node(cx, e, Ghost(less));
            if ir.contains_forced_break() {
                return None;
            }
            s.push_content(ir);
            i = i + 1;
        }
    }
    let ghost whole = s.v();
    let mut gap = false;
    let mut parts = s.parts;
    let mut splits: usize = s.splits;
    while parts.len() > 0 && is_segment_separator(&parts.at(parts.len() - 1))
        invariant
            without_separators(parts@, splits as int, gap) == without_separators(whole.parts, whole.splits, false),
        decreases parts@.len(),
    {
        let last = parts.pop();
        gap = gap || match last {
            Ir::Line => true,
            _ => false,
        };
        splits = if splits > 0 {
            splits - 1
        } else {
            0
        };
    }
    if gap {
        parts.push(Ir::space());
    }
    Some(GroupSegments { open: s.open, parts, close: s.close, splits })
}

/// Whether a group that is reproduced byte by byte stands behind the node.
pub open spec fn verb_group_behind(t: &Tree, n: int) -> bool {
    match next_node(t, n) {
        Some(s) => t.k(s as int) == SyntaxKind::Group && has_tok(t, s as int, SyntaxKind::Verb),
        None => false,
    }
}

/// The next sibling that is a node.
pub open spec fn next_node(t: &Tree, n: int) -> Option<usize>
    decreases t.n() - n,
{
    match t.next_sib(n) {
        Some(s) => if !(n < s < t.n()) {
            None
        } else if t.tok(s as int) {
            next_node(t, s as int)
        } else {
            Some(s)
        },
        None => None,
    }
}

fn has_verb_group_behind(cx: LowerCtx, n: usize) -> (r: bool)
    requires
        cx.ok(),
        n < cx.t.n(),
    ensures
        r == verb_group_behind(cx.t, n as int),
{
    proof {
        reveal(LowerCtx::ok);
    }
    let mut i: usize = n;
    loop
        invariant
            cx.ok(),
            cx.t.wf(),
            i < cx.t.n(),
            next_node(cx.t, i as int) == next_node(cx.t, n as int),
        decreases cx.t.n() - i,
    {
        match cx.t.next_sibling(i) {
            Some(s) => {
                if !cx.t.is_token(s) {
                    return cx.t.kind(s) == SyntaxKind::Group && contains_token(cx, s, SyntaxKind::Verb);
                }
                i = s;
            },
            None => {
                return false;
            },
        }
    }
}

/// Whether the group keeps the lines that it has.
pub open spec fn keeps_lines(cx: LowerCtx, n: int) -> bool {
    !cx.wrapping() || (!cx.in_doc_region && (margin_inside(cx, n) || opens_line(cx, n)))
}

fn keeps_its_lines(cx: LowerCtx, n: usize) -> (r: bool)
    requires
        cx.ok(),
        n < cx.t.n(),
    ensures
        r == keeps_lines(cx, n as int),
{
    !cx.wraps_prose() || (!cx.in_doc_region && (contains_doc_margin(cx, n) || doc_margin_opens_line(cx, n)))
}

/// Entries between delimiters, with the padding inside of them kept on one line only.
#[verifier::opaque]
pub open spec fn entries_layout(open: Layout, entries: Seq<Layout>, close: Layout, splits: int) -> Layout {
    let (lead, rest) = front_padding(entries, Layout::Nil);
    let (trail, parts) = back_padding(rest, Layout::Nil);
    let body = concat(parts);
    if splits == 0 {
        concat(seq![open, lead, body, trail, close])
    } else {
        group(
            concat(
                seq![
                    open,
                    indent(concat3(Layout::SoftLine, if_break(lead, Layout::Nil), body)),
                    if_break(trail, Layout::Nil),
                    Layout::SoftLine,
                    close,
                ],
            ),
        )
    }
}

fn lay_out_entries(s: GroupSegments) -> (r: Ir)
    ensures
        r@ == entries_layout(s.open@, s.parts@, s.close@, s.splits as int),
{
    proof {
        reveal(entries_layout);
    }
    let mut parts = s.parts;
    let lead = peel_leading_padding(&mut parts);
    let trail = peel_trailing_padding(&mut parts);
    let body = Ir::concat(parts);
    let mut all = IrList::new();
    all.push(s.open);
    if s.splits == 0 {
        all.push(lead);
        all.push(body);
        all.push(trail);
        all.push(s.close);
        assert(all@ =~= seq![s.open@, lead@, body@, trail@, s.close@]);
        Ir::concat(all)
    } else {
        all.push(Ir::indent(Ir::concat3(Ir::SoftLine, Ir::if_break(lead, Ir::Nil), body)));
        all.push(Ir::if_break(trail, Ir::Nil));
        all.push(Ir::SoftLine);
        all.push(s.close);
        assert(all@ =~= seq![
            s.open@,
            indent(concat3(Layout::SoftLine, if_break(lead@, Layout::Nil), body@)),
            if_break(trail@, Layout::Nil),
            Layout::SoftLine,
            s.close@,
        ]);
        Ir::group(Ir::concat(all))
    }
}

/// A group with entries: on one line, or with one entry to a line. Nothing where it is left to
/// the caller.
pub open spec fn segmented_group(
    cx: LowerCtx,
    n: int,
    open: SyntaxKind,
    close: SyntaxKind,
    keyval: bool,
    fuel: nat,
) -> Option<Layout>
    decreases fuel, 14int, 0int,
{
    if verb_group_behind(cx.t, n) {
        None
    } else if keeps_lines(cx, n) {
        if multi_line(cx.t, n) {
            Some(bracketed(cx, n, open, close, keyval, fuel))
        } else {
            None
        }
    } else {
        match segments(cx, n, open, close, keyval, fuel) {
            None => Some(bracketed(cx, n, open, close, keyval, fuel)),
            Some(s) => Some(entries_layout(s.open, s.parts, s.close, s.splits)),
        }
    }
}

pub fn lower_segmented_group(
    cx: LowerCtx,
    n: usize,
    open: SyntaxKind,
    close: SyntaxKind,
    keyval: bool,
    Ghost(fuel): Ghost<nat>,
) -> (r: Option<Ir>)
    requires
        cx.ok(),
        room(cx.t, n as int, fuel),
    ensures
        r is Some == segmented_group(cx, n as int, open, close, keyval, fuel) is Some,
        r matches Some(ir) ==> segmented_group(cx, n as int, open, close, keyval, fuel) == Some(ir@),
    decreases fuel, 14int, 0int,
{
    if has_verb_group_behind(cx, n) {
        return None;
    }
    if keeps_its_lines(cx, n) {
        return if spans_multiple_lines(cx, n) {
            Some(lower_bracketed(cx, n, open, close, keyval, Ghost(fuel)))
        } else {
            None
        };
    }
    match segment_delimited_body(cx, n, open, close, keyval, Ghost(fuel)) {
        None => Some(lower_bracketed(cx, n, open, close, keyval, Ghost(fuel))),
        Some(s) => Some(lay_out_entries(s)),
    }
}

/// An argument in brackets.
pub open spec fn optional(cx: LowerCtx, n: int, keyval: bool, fuel: nat) -> Option<Layout>
    decreases fuel, 15int, 0int,
{
    segmented_group(cx, n, SyntaxKind::LBracket, SyntaxKind::RBracket, keyval, fuel)
}

pub fn lower_optional(cx: LowerCtx, n: usize, keyval: bool, Ghost(fuel): Ghost<nat>) -> (r: Option<Ir>)
    requires
        cx.ok(),
        room(cx.t, n as int, fuel),
    ensures
        r is Some == optional(cx, n as int, keyval, fuel) is Some,
        r matches Some(ir) ==> optional(cx, n as int, keyval, fuel) == Some(ir@),
    decreases fuel, 15int, 0int,
{
    lower_segmented_group(cx, n, SyntaxKind::LBracket, SyntaxKind::RBracket, keyval, Ghost(fuel))
}

// ---- a column specification ----------------------------------------------------------------

/// What is known of a column specification.
pub struct Columns {
    pub open: Layout,
    pub close: Layout,
    /// The finished entries, with the separators between them.
    pub entries: Seq<Layout>,
    pub current: Seq<Layout>,
    /// The white space behind the entry in progress.
    pub pending: Option<Trivia>,
    pub depth: int,
}

pub open spec fn no_columns() -> Columns {
    Columns {
        open: Layout::Nil,
        close: Layout::Nil,
        entries: Seq::empty(),
        current: Seq::empty(),
        pending: None,
        depth: 0,
    }
}

impl Columns {
    /// The white space that was held back belongs to the entry.
    pub open spec fn kept_gap(self) -> Columns {
        match self.pending {
            Some(gap) => Columns { current: self.current.push(verbatim(gap.flat())), pending: None, ..self },
            None => self,
        }
    }

    /// The white space that was held back separates two entries.
    pub open spec fn cut_gap(self) -> Columns {
        match self.pending {
            Some(gap) => if self.current.len() > 0 {
                Columns {
                    entries: self.entries.push(concat(self.current)).push(gap.separator()),
                    current: Seq::empty(),
                    pending: None,
                    ..self
                }
            } else {
                Columns { pending: None, ..self }
            },
            None => self,
        }
    }

    pub open spec fn with_piece(self, l: Layout) -> Columns {
        Columns { current: self.current.push(l), ..self }
    }
}

/// What is known of the specification once the elements from `i` on are behind, or nothing where
/// it is left to the caller.
pub open spec fn columns(cx: LowerCtx, es: Seq<usize>, i: int, s: Columns, fuel: nat) -> Option<Columns>
    decreases fuel, 70int, es.len() - i,
{
    if i < 0 || i >= es.len() {
        Some(s)
    } else {
        proof {
            lemma_gap_end(cx.t, es, i);
        }
        let t = cx.t;
        let e = es[i] as int;
        if t.tok_is(e, SyntaxKind::LBrace) && s.open is Nil {
            columns(cx, es, i + 1, Columns { open: verbatim(t.txt(e)), ..s }, fuel)
        } else if t.tok_is(e, SyntaxKind::RBrace) {
            columns(cx, es, i + 1, Columns { close: verbatim(t.txt(e)), ..s }, fuel)
        } else if t.tok_is(e, SyntaxKind::LBracket) {
            columns(cx, es, i + 1, (Columns { depth: s.depth + 1, ..s.kept_gap() }).with_piece(loose(cx, e)), fuel)
        } else if t.tok_is(e, SyntaxKind::RBracket) {
            columns(
                cx,
                es,
                i + 1,
                (Columns {
                    depth: if s.depth > 0 {
                        s.depth - 1
                    } else {
                        0
                    },
                    ..s
                }).with_piece(loose(cx, e)),
                fuel,
            )
        } else if t.gap(e) {
            let gap = gap_of(t, es, i);
            if gap is Blank {
                None
            } else {
                let next = if s.depth == 0 {
                    Columns { pending: Some(gap), ..s }
                } else {
                    s.with_piece(verbatim(gap.flat()))
                };
                columns(cx, es, gap_end(t, es, i), next, fuel)
            }
        } else if t.tok_is(e, SyntaxKind::Comment) {
            None
        } else if t.tok(e) {
            columns(cx, es, i + 1, s.cut_gap().with_piece(loose(cx, e)), fuel)
        } else {
            let l = node(cx, e, fuel);
            if forces_break(l) {
                None
            } else {
                columns(cx, es, i + 1, s.kept_gap().with_piece(l), fuel)
            }
        }
    }
}

/// Entries without the separators at their end.
pub open spec fn unseparated(entries: Seq<Layout>) -> Seq<Layout>
    decreases entries.len(),
{
    if entries.len() > 0 && separates(entries.last()) {
        unseparated(entries.drop_last())
    } else {
        entries
    }
}

/// Whether a list holds a separator.
pub open spec fn any_separates(entries: Seq<Layout>) -> bool {
    exists|i: int| 0 <= i < entries.len() && separates(#[trigger] entries[i])
}

/// A column specification with one entry to a line where it does not fit on one. Nothing where
/// it is left to the caller.
pub open spec fn column_spec_group(cx: LowerCtx, n: int, fuel: nat) -> Option<Layout>
    decreases fuel, 16int, 0int,
{
    if keeps_lines(cx, n) || fuel == 0 {
        None
    } else {
        match columns(cx, framing_stripped(cx, cx.t.kids(n)), 0, no_columns(), (fuel - 1) as nat) {
            None => None,
            Some(s) => {
                let entries = unseparated(s.entries.push(concat(s.current)));
                if any_separates(entries) {
                    Some(
                        group(
                            crate::ir::concat4(
                                s.open,
                                indent(crate::ir::concat2(Layout::SoftLine, concat(entries))),
                                Layout::SoftLine,
                                s.close,
                            ),
                        ),
                    )
                } else {
                    None
                }
            },
        }
    }
}

struct ColumnState {
    open: Ir,
    close: Ir,
    entries: IrList,
    current: IrList,
    pending: Option<Gap>,
    depth: usize,
}

impl ColumnState {
    spec fn v(&self) -> Columns {
        Columns {
            open: self.open@,
            close: self.close@,
            entries: self.entries@,
            current: self.current@,
            pending: match self.pending {
                Some(gap) => Some(gap@),
                None => None,
            },
            depth: self.depth as int,
        }
    }

    fn keep_gap(&mut self)
        ensures
            final(self).v() == old(self).v().kept_gap(),
    {
        match self.pending.take() {
            Some(gap) => {
                self.current.push(Ir::verbatim(gap.flat()));
            },
            None => {},
        }
    }

    fn cut_gap(&mut self)
        ensures
            final(self).v() == old(self).v().cut_gap(),
    {
        match self.pending.take() {
            Some(gap) => {
                if !self.current.is_empty() {
                    let pieces = self.current.take();
                    self.entries.push(Ir::concat(pieces));
                    self.entries.push(gap.separator());
                }
            },
            None => {},
        }
    }
}

pub fn lower_column_spec_group(cx: LowerCtx, n: usize, Ghost(fuel): Ghost<nat>) -> (r: Option<Ir>)
    requires
        cx.ok(),
        room(cx.t, n as int, fuel),
    ensures
        r is Some == column_spec_group(cx, n as int, fuel) is Some,
        r matches Some(ir) ==> column_spec_group(cx, n as int, fuel) == Some(ir@),
    decreases fuel, 16int, 0int,
{
    if keeps_its_lines(cx, n) {
        return None;
    }
    let ghost less = (fuel - 1) as nat;
    let es = strip_virtual_dtx_framing(cx, cx.children(n), Ghost(less));
    let mut s = ColumnState {
        open: Ir::Nil,
        close: Ir::Nil,
        entries: IrList::new(),
        current: IrList::new(),
        pending: None,
        depth: 0,
    };
    let ghost start = no_columns();
    assert(s.v() == start);
    let mut i: usize = 0;
    while i < es.len()
        invariant
            cx.ok(),
            fuel > 0,
            less == fuel - 1,
            !keeps_lines(cx, n as int),
            es@ == framing_stripped(cx, cx.t.kids(n as int)),
            fits(cx.t, es@, less),
            i <= es@.len(),
            s.depth <= i,
            start == no_columns(),
            columns(cx, es@, i as int, s.v(), less) == columns(cx, es@, 0, start, less),
        decreases es@.len() - i,
    {
        let e: usize = es[i];
        assert(room(cx.t, es@[i as int] as int, less));
        if cx.t.token_is(e, SyntaxKind::LBrace) && s.open.is_nil() {
            s.open = Ir::verbatim(cx.t.text(e));
            i = i + 1;
        } else if cx.t.token_is(e, SyntaxKind::RBrace) {
            s.close = Ir::verbatim(cx.t.text(e));
            i = i + 1;
        } else if cx.t.token_is(e, SyntaxKind::LBracket) {
            s.keep_gap();
            s.depth = s.depth + 1;
            s.current.push(lower_loose_token(cx, e));
            i = i + 1;
        } else if cx.t.token_is(e, SyntaxKind::RBracket) {
            s.depth = if s.depth > 0 {
                s.depth - 1
            } else {
                0
            };
            s.current.push(lower_loose_token(cx, e));
            i = i + 1;
        } else if cx.t.is_gap(e) {
            let (gap, end) = cx.consume_gap(&es, i);
            if gap.is_blank() {
                return None;
            }
            if s.depth == 0 {
                s.pending = Some(gap);
            } else {
                s.current.push(Ir::verbatim(gap.flat()));
            }
            i = end;
        } else if cx.t.token_is(e, SyntaxKind::Comment) {
            return None;
        } else if cx.t.is_token(e) {
            s.cut_gap();
            s.current.push(lower_loose_token(cx, e));
            i = i + 1;
        } else {
            let ir = lower_node(cx, e, Ghost(less));
            if ir.contains_forced_break() {
                return None;
            }
            s.keep_gap();
            s.current.push(ir);
            i = i + 1;
        }
    }
    let mut entries = s.entries;
    entries.push(Ir::concat(s.current));
    let ghost all = entries@;
    while entries.len() > 0 && is_segment_separator(&entries.at(entries.len() - 1))
        invariant
            unseparated(entries@) == unseparated(all),
        decreases entries@.len(),
    {
        let _ = entries.pop();
    }
    let mut split = false;
    let mut k: usize = 0;
    while k < entries.len()
        invariant
            k <= entries@.len(),
            split == exists|j: int| 0 <= j < k && separates(#[trigger] entries@[j]),
        decreases entries@.len() - k,
    {
        if is_segment_separator(&entries.at(k)) {
            split = true;
        }
        k = k + 1;
    }
    if !split {
        return None;
    }
    Some(
        Ir::group(
            Ir::concat4(s.open, Ir::indent(Ir::concat2(Ir::SoftLine, Ir::concat(entries))), Ir::SoftLine, s.close),
        ),
    )
}

} // verus!

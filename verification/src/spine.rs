//! The pieces of a layout, one after the other.

use vstd::prelude::*;

use crate::context::{Boundary, LowerCtx};
use crate::display::Display;
use crate::environments::enframed;
use crate::gap::{peel_back, peel_front};
use crate::ir::{concat, indent, interleave, kept, space, verbatim, Layout};
use crate::lines::{
    atom_ends_sentence, broken_after, cites_before, sentence_end, sentence_lines, sentences, Atom, CitationSuffix,
};
use crate::lists::{item_layout, list_framed};
use crate::settings::ItemIndent;
use crate::signatures::CitationPlacement;

verus! {

/// The pieces of a layout: those of a concatenation are the pieces of its parts, nothing has none,
/// and every other layout is one piece.
pub open spec fn spine(l: Layout) -> Seq<Layout>
    decreases l,
{
    match l {
        Layout::Nil => Seq::empty(),
        Layout::Concat(items) => spines(items),
        _ => seq![l],
    }
}

/// The pieces of the layouts of a list, in order.
pub open spec fn spines(items: Seq<Layout>) -> Seq<Layout>
    decreases items,
{
    if items.len() == 0 {
        Seq::empty()
    } else {
        spines(items.drop_last()) + spine(items.last())
    }
}

proof fn lemma_spines_kept(parts: Seq<Layout>)
    ensures
        spines(kept(parts)) == spines(parts),
    decreases parts.len(),
{
    if parts.len() > 0 {
        lemma_spines_kept(parts.drop_last());
        if parts.last() is Nil {
            assert(spine(parts.last()) =~= Seq::<Layout>::empty());
            assert(spines(parts) =~= spines(parts.drop_last()));
        } else {
            let list = kept(parts.drop_last()).push(parts.last());
            assert(list.drop_last() =~= kept(parts.drop_last()));
        }
    }
}

/// A concatenation has the pieces of its parts.
pub proof fn a_concatenation_has_the_pieces_of_its_parts(parts: Seq<Layout>)
    ensures
        spine(concat(parts)) == spines(parts),
{
    lemma_spines_kept(parts);
    let list = kept(parts);
    if list.len() == 1 {
        assert(list.drop_last() =~= Seq::<Layout>::empty());
        assert(spines(list.drop_last()) =~= Seq::<Layout>::empty());
        assert(spines(list) =~= spine(list[0]));
    }
}

pub(crate) proof fn lemma_spines_push(items: Seq<Layout>, l: Layout)
    ensures
        spines(items.push(l)) == spines(items) + spine(l),
{
    assert(items.push(l).drop_last() =~= items);
}

proof fn lemma_spines_one(l: Layout)
    ensures
        spines(seq![l]) == spine(l),
{
    let one = seq![l];
    assert(one.drop_last() =~= Seq::<Layout>::empty());
    assert(spines(one.drop_last()) =~= Seq::<Layout>::empty());
    assert(spines(one) == spines(one.drop_last()) + spine(one.last()));
    assert(spines(one) =~= spine(l));
}

// ---- sentences -----------------------------------------------------------------------------

/// The first `k` atoms of a run, with a line break behind each at which a sentence ends, and a
/// blank behind each other one.
pub open spec fn sentence_by_sentence(run: Seq<Atom>, pairs: Seq<Boundary>, k: int) -> Seq<Layout>
    decreases k,
{
    if k <= 0 {
        Seq::empty()
    } else if k == 1 {
        spine(run[0].layout)
    } else {
        sentence_by_sentence(run, pairs, k - 1) + seq![
            if broken_after(run, pairs, k - 2) {
                Layout::HardLine
            } else {
                Layout::Text(seq![' '])
            },
        ] + spine(run[k - 1].layout)
    }
}

proof fn lemma_spines_interleaved(parts: Seq<Layout>, l: Layout)
    requires
        parts.len() > 0,
    ensures
        spines(interleave(Layout::HardLine, parts.push(l))) == spines(interleave(Layout::HardLine, parts)) + seq![
            Layout::HardLine,
        ] + spine(l),
{
    assert(parts.push(l).drop_last() =~= parts);
    let a = interleave(Layout::HardLine, parts);
    lemma_spines_push(a, Layout::HardLine);
    lemma_spines_push(a.push(Layout::HardLine), l);
}

/// What the finished sentences and the one in progress hold once `k` atoms are behind.
proof fn lemma_sentences(run: Seq<Atom>, pairs: Seq<Boundary>, k: int)
    requires
        0 < k <= run.len(),
    ensures
        ({
            let (done, current) = sentences(run, pairs, k);
            let all = if current.len() > 0 {
                done.push(concat(current))
            } else {
                done
            };
            &&& spines(interleave(Layout::HardLine, all)) == sentence_by_sentence(run, pairs, k)
            &&& all.len() > 0
            &&& current.len() == 0 <==> broken_after(run, pairs, k - 1)
        }),
    decreases k,
{
    let (done, current) = sentences(run, pairs, k);
    let l = run[k - 1].layout;
    if k == 1 {
        let (d0, c0) = sentences(run, pairs, 0);
        assert(d0.len() == 0 && c0.len() == 0);
        let grown = c0.push(l);
        assert(grown =~= seq![l]);
        a_concatenation_has_the_pieces_of_its_parts(grown);
        lemma_spines_one(l);
        let all = d0.push(concat(grown));
        assert(interleave(Layout::HardLine, all) =~= all);
        assert(all =~= seq![concat(grown)]);
        lemma_spines_one(concat(grown));
    } else {
        lemma_sentences(run, pairs, k - 1);
        let (d, c) = sentences(run, pairs, k - 1);
        if c.len() > 0 {
            let grown = c.push(Layout::Text(seq![' '])).push(l);
            let all = d.push(concat(grown));
            a_concatenation_has_the_pieces_of_its_parts(c);
            a_concatenation_has_the_pieces_of_its_parts(grown);
            lemma_spines_push(c, Layout::Text(seq![' ']));
            lemma_spines_push(c.push(Layout::Text(seq![' '])), l);
            if d.len() > 0 {
                lemma_spines_interleaved(d, concat(grown));
                lemma_spines_interleaved(d, concat(c));
                assert(spines(interleave(Layout::HardLine, all)) =~= sentence_by_sentence(run, pairs, k));
            } else {
                assert(all =~= seq![concat(grown)]);
                assert(d.push(concat(c)) =~= seq![concat(c)]);
                lemma_spines_one(concat(grown));
                lemma_spines_one(concat(c));
                assert(spines(interleave(Layout::HardLine, all)) =~= sentence_by_sentence(run, pairs, k));
            }
        } else {
            let grown = c.push(l);
            assert(grown =~= seq![l]);
            a_concatenation_has_the_pieces_of_its_parts(grown);
            lemma_spines_one(l);
            lemma_spines_interleaved(d, concat(grown));
            assert(spines(interleave(Layout::HardLine, d.push(concat(grown)))) =~= sentence_by_sentence(run, pairs, k));
        }
    }
}

/// Laid out by sentences, the atoms of a run follow one another in order, with a line break exactly
/// where a sentence ends and one blank everywhere else.
pub proof fn each_sentence_has_its_line(run: Seq<Atom>, pairs: Seq<Boundary>)
    requires
        run.len() > 0,
    ensures
        spine(sentence_lines(run, pairs)) == sentence_by_sentence(run, pairs, run.len() as int),
{
    lemma_sentences(run, pairs, run.len() as int);
    let (done, current) = sentences(run, pairs, run.len() as int);
    let all = if current.len() > 0 {
        done.push(concat(current))
    } else {
        done
    };
    a_concatenation_has_the_pieces_of_its_parts(interleave(Layout::HardLine, all));
}

/// In a run without citations, a line ends behind an atom exactly where the rules have a sentence
/// end between it and the next one.
pub proof fn lines_end_where_sentences_do(run: Seq<Atom>, pairs: Seq<Boundary>, k: int)
    requires
        0 <= k < run.len(),
        forall|i: int| 0 <= i < run.len() ==> (#[trigger] run[i]).citation is None,
    ensures
        broken_after(run, pairs, k) <==> k + 1 < run.len() && exists|b: int|
            0 <= b < pairs.len() && (#[trigger] pairs[b]).word@ == run[k].text && pairs[b].next@ == run[k + 1].text,
{
    assert forall|i: int| 0 <= i < run.len() - 1 implies sentence_end(run, i) == i by {
        assert(run[i + 1].citation is None);
    }
    if k + 1 < run.len() {
        assert(run[k].citation is None);
        assert(sentence_end(run, k) == k);
        if broken_after(run, pairs, k) {
            let i = choose|i: int|
                0 <= i < run.len() - 1 && #[trigger] atom_ends_sentence(run, pairs, i) && sentence_end(run, i) == k;
            assert(sentence_end(run, i) == i);
            assert(atom_ends_sentence(run, pairs, k));
        }
        if exists|b: int|
            0 <= b < pairs.len() && (#[trigger] pairs[b]).word@ == run[k].text && pairs[b].next@ == run[k + 1].text {
            assert(atom_ends_sentence(run, pairs, k));
        }
    }
}

proof fn lemma_sentence_end_stops(run: Seq<Atom>, i: int, k: int)
    requires
        0 <= i < run.len(),
        sentence_end(run, i) == k,
        k + 1 < run.len(),
    ensures
        !cites_before(run[k + 1]),
    decreases run.len() - i,
{
    if i + 1 < run.len() && cites_before(run[i + 1]) {
        lemma_sentence_end_stops(run, i + 1, k);
    }
}

/// A citation that belongs to the sentence before it stays on its line.
pub proof fn a_citation_stays_with_its_sentence(run: Seq<Atom>, pairs: Seq<Boundary>, k: int)
    requires
        0 <= k < run.len() - 1,
        run[k + 1].citation == Some(CitationSuffix { start: 0, placement: CitationPlacement::Postpositive }) || (
        run[k + 1].citation == Some(CitationSuffix { start: 0, placement: CitationPlacement::Ambiguous })
            && !run[k + 1].broken_before),
    ensures
        !broken_after(run, pairs, k),
{
    if broken_after(run, pairs, k) {
        let i = choose|i: int|
            0 <= i < run.len() - 1 && #[trigger] atom_ends_sentence(run, pairs, i) && sentence_end(run, i) == k;
        lemma_sentence_end_stops(run, i, k);
    }
}

// ---- frames --------------------------------------------------------------------------------

/// The break before the body of an environment and the one behind it: an empty line where the body
/// starts or ends with one, and a line break otherwise.
pub open spec fn edge(blank: bool) -> Layout {
    if blank {
        Layout::EmptyLine
    } else {
        Layout::HardLine
    }
}

proof fn lemma_spines_four(a: Layout, b: Layout, c: Layout, d: Layout)
    ensures
        spines(seq![a, b, c, d]) == spine(a) + spine(b) + spine(c) + spine(d),
{
    let e = Seq::<Layout>::empty();
    assert(spines(e) =~= e);
    lemma_spines_push(e, a);
    lemma_spines_push(e.push(a), b);
    lemma_spines_push(e.push(a).push(b), c);
    lemma_spines_push(e.push(a).push(b).push(c), d);
    assert(seq![a, b, c, d] =~= e.push(a).push(b).push(c).push(d));
    assert(spines(seq![a, b, c, d]) =~= spine(a) + spine(b) + spine(c) + spine(d));
}

/// The body of an environment stands on lines of its own between the header and the end. It is
/// indented one step, unless the environment keeps the indentation of its surroundings. Empty
/// lines at its edges stay, one each; without a body the end follows on the next line.
pub proof fn a_body_stands_between_header_and_end(begin: Layout, body: Layout, end: Layout, flush: bool)
    ensures
        ({
            let (lead, rest) = peel_front(body);
            let (trail, solid) = peel_back(rest);
            let whole = spine(enframed(begin, body, end, flush));
            if solid is Nil {
                whole == spine(begin) + seq![Layout::HardLine] + spine(end)
            } else if flush {
                whole == spine(begin) + seq![edge(lead)] + spine(solid) + seq![edge(trail)] + spine(end)
            } else {
                exists|inner: Layout|
                    {
                        &&& whole == spine(begin) + seq![Layout::Indent(Box::new(inner))] + seq![edge(trail)] + spine(end)
                        &&& #[trigger] spine(inner) == seq![edge(lead)] + spine(solid)
                    }
            }
        }),
{
    let (lead, rest) = peel_front(body);
    let (trail, solid) = peel_back(rest);
    let e = Seq::<Layout>::empty();
    assert(spines(e) =~= e);
    assert(spine(Layout::HardLine) =~= seq![Layout::HardLine]);
    assert(spine(edge(lead)) =~= seq![edge(lead)]);
    assert(spine(edge(trail)) =~= seq![edge(trail)]);
    if solid is Nil {
        let parts = seq![begin, Layout::HardLine, end];
        a_concatenation_has_the_pieces_of_its_parts(parts);
        lemma_spines_push(e, begin);
        lemma_spines_push(e.push(begin), Layout::HardLine);
        lemma_spines_push(e.push(begin).push(Layout::HardLine), end);
        assert(parts =~= e.push(begin).push(Layout::HardLine).push(end));
        assert(spines(parts) =~= spine(begin) + seq![Layout::HardLine] + spine(end));
    } else if flush {
        let front = seq![begin, edge(lead), solid, edge(trail)];
        let parts = seq![begin, edge(lead), solid, edge(trail), end];
        a_concatenation_has_the_pieces_of_its_parts(parts);
        lemma_spines_four(begin, edge(lead), solid, edge(trail));
        assert(parts =~= front.push(end));
        lemma_spines_push(front, end);
        assert(spines(parts) =~= spine(begin) + seq![edge(lead)] + spine(solid) + seq![edge(trail)] + spine(end));
    } else {
        let pair = seq![edge(lead), solid];
        let inner = concat(pair);
        a_concatenation_has_the_pieces_of_its_parts(pair);
        lemma_spines_push(e, edge(lead));
        lemma_spines_push(e.push(edge(lead)), solid);
        assert(pair =~= e.push(edge(lead)).push(solid));
        assert(spine(inner) =~= seq![edge(lead)] + spine(solid));
        let parts = seq![begin, indent(inner), edge(trail), end];
        a_concatenation_has_the_pieces_of_its_parts(parts);
        lemma_spines_four(begin, indent(inner), edge(trail), end);
        assert(!(inner is Nil));
        assert(spine(indent(inner)) =~= seq![Layout::Indent(Box::new(inner))]);
        assert(spines(parts) =~= spine(begin) + seq![Layout::Indent(Box::new(inner))] + seq![edge(trail)] + spine(end));
    }
}

/// A display formula stands on lines of its own between its delimiters, indented one step. Without
/// content the delimiters touch, unless a comment stands behind the first.
pub proof fn a_display_formula_stands_between_its_delimiters(d: Display)
    ensures
        !d.empty ==> exists|inner: Layout|
            {
                &&& spine(d.layout()) == seq![
                    verbatim(d.open),
                    Layout::Indent(Box::new(inner)),
                    Layout::HardLine,
                    verbatim(d.close),
                ]
                &&& #[trigger] spine(inner) == seq![Layout::HardLine] + spine(d.body)
            },
        d.empty && d.commented ==> spine(d.layout()) == seq![verbatim(d.open), Layout::HardLine, verbatim(d.close)],
        d.empty && !d.commented ==> spine(d.layout()) == seq![verbatim(d.open), verbatim(d.close)],
{
    let e = Seq::<Layout>::empty();
    assert(spines(e) =~= e);
    let a = verbatim(d.open);
    let c = verbatim(d.close);
    let h = Layout::HardLine;
    lemma_spines_push(e, a);
    if !d.empty {
        let pair = seq![h, d.body];
        let inner = concat(pair);
        a_concatenation_has_the_pieces_of_its_parts(pair);
        lemma_spines_push(e, h);
        lemma_spines_push(e.push(h), d.body);
        assert(pair =~= e.push(h).push(d.body));
        assert(spine(inner) =~= seq![h] + spine(d.body));
        let parts = seq![a, indent(inner), h, c];
        a_concatenation_has_the_pieces_of_its_parts(parts);
        lemma_spines_four(a, indent(inner), h, c);
        assert(spines(parts) =~= seq![a, Layout::Indent(Box::new(inner)), h, c]);
    } else if d.commented {
        let parts = seq![a, h, c];
        a_concatenation_has_the_pieces_of_its_parts(parts);
        lemma_spines_push(e.push(a), h);
        lemma_spines_push(e.push(a).push(h), c);
        assert(parts =~= e.push(a).push(h).push(c));
        assert(spines(parts) =~= seq![a, h, c]);
    } else {
        let parts = seq![a, c];
        a_concatenation_has_the_pieces_of_its_parts(parts);
        lemma_spines_push(e.push(a), c);
        assert(parts =~= e.push(a).push(c));
        assert(spines(parts) =~= seq![a, c]);
    }
}

/// What an item holds stands behind its marker and one space, without the space behind an overlay
/// that a comment touches. Its further lines stand under what follows the command, one step in, or
/// flush with the marker, as the layout says. An empty item is its marker.
pub proof fn an_item_hangs_behind_its_marker(
    cx: LowerCtx,
    marker: Seq<char>,
    hang: int,
    glued: bool,
    content: Layout,
    width: int,
)
    requires
        cx.item_indent == ItemIndent::Hang ==> width == hang,
        cx.item_indent == ItemIndent::Indent ==> width == cx.indent_width,
        cx.item_indent == ItemIndent::Flush ==> width == 0,
    ensures
        ({
            let whole = spine(item_layout(cx, Seq::empty(), marker, hang, glued, content));
            let body = Layout::Align { width, body: Box::new(content) };
            &&& content is Nil ==> whole == seq![verbatim(marker)]
            &&& !(content is Nil) && glued ==> whole == seq![verbatim(marker), body]
            &&& !(content is Nil) && !glued ==> whole == seq![verbatim(marker), space(), body]
        }),
{
    let e = Seq::<Layout>::empty();
    assert(spines(e) =~= e);
    let a = verbatim(marker);
    let body = Layout::Align { width, body: Box::new(content) };
    if !(content is Nil) {
        let gap = if glued {
            Layout::Nil
        } else {
            space()
        };
        let parts = seq![a, gap, body];
        a_concatenation_has_the_pieces_of_its_parts(parts);
        lemma_spines_push(e, a);
        lemma_spines_push(e.push(a), gap);
        lemma_spines_push(e.push(a).push(gap), body);
        assert(parts =~= e.push(a).push(gap).push(body));
        assert(spines(parts) =~= spine(a) + spine(gap) + spine(body));
        if glued {
            assert(spines(parts) =~= seq![a, body]);
        } else {
            assert(spines(parts) =~= seq![a, space(), body]);
        }
    }
}

/// The items of a list stand on lines of their own between its header and its end, indented one
/// step.
pub proof fn the_items_stand_between_header_and_end(leading: Layout, begin: Layout, body: Layout, end: Layout)
    ensures
        exists|inner: Layout|
            {
                &&& spine(list_framed(leading, begin, body, end)) == spine(leading) + spine(begin) + seq![
                    Layout::Indent(Box::new(inner)),
                    Layout::HardLine,
                ] + spine(end)
                &&& #[trigger] spine(inner) == seq![Layout::HardLine] + spine(body)
            },
{
    let e = Seq::<Layout>::empty();
    assert(spines(e) =~= e);
    let h = Layout::HardLine;
    let pair = seq![h, body];
    let inner = concat(pair);
    a_concatenation_has_the_pieces_of_its_parts(pair);
    lemma_spines_push(e, h);
    lemma_spines_push(e.push(h), body);
    assert(pair =~= e.push(h).push(body));
    assert(spine(inner) =~= seq![h] + spine(body));
    let front = seq![leading, begin, indent(inner), h];
    let parts = seq![leading, begin, indent(inner), h, end];
    a_concatenation_has_the_pieces_of_its_parts(parts);
    lemma_spines_four(leading, begin, indent(inner), h);
    assert(parts =~= front.push(end));
    lemma_spines_push(front, end);
    assert(spines(parts) =~= spine(leading) + spine(begin) + seq![Layout::Indent(Box::new(inner)), h] + spine(end));
}

} // verus!

//! Whether a layout says what the source says: the same ink in the same order, and a line break
//! behind each comment.

use vstd::prelude::*;

use crate::ink::{
    breaks_at, document_breaks, every_form_breaks, every_form_has_the_ink, forms_agree, forms_have_one_ink, has_place, ink,
    ink_chars, ink_of_a_sum, lemma_breaks_in_first, lemma_breaks_in_second, places, reads, same_chars, sure_breaks,
    text_breaks, text_breaks_are_its_own,
};
use crate::ir::{flat_text, verbatim, Ir, Layout};
use crate::syntax::{SyntaxKind, Tree};

verus! {

/// The source of a list of elements.
pub open spec fn text_of(t: &Tree, es: Seq<usize>) -> Seq<char>
    decreases es.len(),
{
    if es.len() == 0 {
        Seq::empty()
    } else {
        text_of(t, es.drop_last()) + t.src(es.last() as int)
    }
}

/// The source of a list of elements.
pub(crate) fn source_of_all(t: &Tree, es: &Vec<usize>) -> (r: String)
    requires
        t.wf(),
        forall|k: int| 0 <= k < es@.len() ==> (#[trigger] es@[k]) < t.n(),
    ensures
        r@ == text_of(t, es@),
{
    let mut out = String::new();
    let mut i: usize = 0;
    while i < es.len()
        invariant
            t.wf(),
            i <= es.len(),
            forall|k: int| 0 <= k < es@.len() ==> (#[trigger] es@[k]) < t.n(),
            out@ == text_of(t, es@.take(i as int)),
        decreases es.len() - i,
    {
        assert(es@.take(i + 1).drop_last() =~= es@.take(i as int));
        let text = t.source_text(es[i]);
        out.append(text.as_str());
        i = i + 1;
    }
    assert(es@.take(i as int) =~= es@);
    out
}

/// The source of one element by itself.
pub proof fn one_element_has_its_source(t: &Tree, e: usize)
    ensures
        text_of(t, seq![e]) == t.src(e as int),
{
    assert(seq![e].drop_last() =~= Seq::<usize>::empty());
    assert(text_of(t, Seq::empty()) =~= Seq::<char>::empty());
    assert(text_of(t, seq![e]) =~= t.src(e as int));
}

/// The ends of the comments among the elements from `lo` up to `hi`, each by the ink of the source
/// before it, which `base` is added to.
pub open spec fn comment_ends(t: &Tree, lo: int, hi: int, base: int, margins: bool) -> Seq<int>
    decreases hi - lo,
{
    if hi <= lo || hi <= 0 {
        Seq::empty()
    } else if t.tok_is(hi - 1, SyntaxKind::Comment) {
        comment_ends(t, lo, hi - 1, base, margins).push(base + ink(t.source(lo, hi), margins).len())
    } else {
        comment_ends(t, lo, hi - 1, base, margins)
    }
}

/// The ends of the comments in the elements of a list.
pub open spec fn all_comment_ends(t: &Tree, es: Seq<usize>, margins: bool) -> Seq<int>
    decreases es.len(),
{
    if es.len() == 0 {
        Seq::empty()
    } else {
        all_comment_ends(t, es.drop_last(), margins) + comment_ends(
            t,
            es.last() as int,
            t.end(es.last() as int),
            ink(text_of(t, es.drop_last()), margins).len() as int,
            margins,
        )
    }
}

/// Whether each comment is followed by a line break, or by nothing: a list of the breaks that
/// there are for certain holds the end of each.
pub open spec fn comments_closed(ends: Seq<int>, breaks: Seq<int>, total: int) -> bool {
    forall|k: int| 0 <= k < ends.len() ==> #[trigger] ends[k] == total || breaks.contains(ends[k])
}

/// Whether a layout says what the elements of a list say. In whatever form it is printed, it has
/// their ink, in order, and nothing but white space stands between the end of a comment and the
/// next line break. Where `margins` holds, percent signs do not count as ink.
pub open spec fn faithful(t: &Tree, es: Seq<usize>, l: Layout, margins: bool) -> bool {
    let source = ink(text_of(t, es), margins);
    &&& forms_agree(l, margins)
    &&& ink(flat_text(l), margins) == source
    &&& comments_closed(all_comment_ends(t, es, margins), sure_breaks(l, true, 0, margins), source.len() as int)
}

/// What has been read of a source: its ink, and where its comments end in it.
struct Reading {
    ink: Vec<char>,
    ends: Vec<usize>,
}

fn read_element(t: &Tree, e: usize, r: &mut Reading, margins: bool)
    requires
        t.wf(),
        e < t.n(),
    ensures
        final(r).ink@ == old(r).ink@ + ink(t.src(e as int), margins),
        places(final(r).ends@) == places(old(r).ends@) + comment_ends(
            t,
            e as int,
            t.end(e as int),
            old(r).ink@.len() as int,
            margins,
        ),
{
    let ghost first = r.ink@;
    let ghost known = places(r.ends@);
    let hi: usize = t.elems[e].end;
    let mut i: usize = e;
    assert(t.end(e as int) > e);
    assert(first + ink(t.source(e as int, e as int), margins) =~= first);
    assert(known + comment_ends(t, e as int, e as int, first.len() as int, margins) =~= known);
    while i < hi
        invariant
            t.wf(),
            e <= i <= hi,
            e < t.n(),
            hi == t.end(e as int),
            hi <= t.n(),
            r.ink@ == first + ink(t.source(e as int, i as int), margins),
            places(r.ends@) == known + comment_ends(t, e as int, i as int, first.len() as int, margins),
        decreases hi - i,
    {
        let ghost before = t.source(e as int, i as int);
        if t.is_token(i) {
            let mut more = ink_chars(t.text(i), margins);
            let ghost fresh = more@;
            let ghost so_far = r.ink@;
            r.ink.append(&mut more);
            proof {
                ink_of_a_sum(before, t.txt(i as int), margins);
                assert(r.ink@ =~= first + ink(t.source(e as int, i + 1), margins));
            }
            if t.kind(i) == SyntaxKind::Comment {
                let ghost ends = r.ends@;
                let at: usize = r.ink.len();
                r.ends.push(at);
                assert(places(r.ends@) =~= places(ends).push(at as int));
                assert(places(r.ends@) =~= known + comment_ends(t, e as int, i + 1, first.len() as int, margins));
            }
        }
        i = i + 1;
    }
}

fn read_elements(t: &Tree, es: &Vec<usize>, margins: bool) -> (r: Reading)
    requires
        t.wf(),
        forall|k: int| 0 <= k < es@.len() ==> (#[trigger] es@[k]) < t.n(),
    ensures
        r.ink@ == ink(text_of(t, es@), margins),
        places(r.ends@) == all_comment_ends(t, es@, margins),
{
    let mut r = Reading { ink: Vec::new(), ends: Vec::new() };
    let mut i: usize = 0;
    assert(places(r.ends@) =~= all_comment_ends(t, es@.take(0), margins));
    while i < es.len()
        invariant
            t.wf(),
            i <= es.len(),
            forall|k: int| 0 <= k < es@.len() ==> (#[trigger] es@[k]) < t.n(),
            r.ink@ == ink(text_of(t, es@.take(i as int)), margins),
            places(r.ends@) == all_comment_ends(t, es@.take(i as int), margins),
        decreases es.len() - i,
    {
        proof {
            assert(es@.take(i + 1).drop_last() =~= es@.take(i as int));
            ink_of_a_sum(text_of(t, es@.take(i as int)), t.src(es@[i as int] as int), margins);
        }
        read_element(t, es[i], &mut r, margins);
        i = i + 1;
    }
    assert(es@.take(i as int) =~= es@);
    r
}


fn ends_are_breaks(ends: &Vec<usize>, breaks: &Vec<usize>, total: usize) -> (r: bool)
    ensures
        r == comments_closed(places(ends@), places(breaks@), total as int),
{
    let mut i: usize = 0;
    while i < ends.len()
        invariant
            i <= ends.len(),
            forall|k: int|
                0 <= k < i ==> #[trigger] places(ends@)[k] == total || places(breaks@).contains(places(ends@)[k]),
        decreases ends.len() - i,
    {
        if ends[i] != total && !has_place(breaks, ends[i]) {
            assert(places(ends@)[i as int] == ends@[i as int]);
            return false;
        }
        i = i + 1;
    }
    true
}

/// Whether a layout says what the elements of a list say.
pub fn is_faithful(t: &Tree, es: &Vec<usize>, layout: &Ir, margins: bool) -> (r: bool)
    requires
        t.wf(),
        forall|k: int| 0 <= k < es@.len() ==> (#[trigger] es@[k]) < t.n(),
    ensures
        r == faithful(t, es@, layout@, margins),
{
    let source = read_elements(t, es, margins);
    let flat = layout.print_flat();
    let own = ink_chars(flat.as_str(), margins);
    if !forms_have_one_ink(layout, margins) || !same_chars(&own, &source.ink) {
        return false;
    }
    if source.ends.len() == 0 {
        return true;
    }
    assert(own.len() == own@.len());
    let breaks = document_breaks(layout, margins);
    ends_are_breaks(&source.ends, &breaks, own.len())
}

// ---- what a faithful layout is printed as --------------------------------------------------

/// Whether a text says what the elements of a list say: it has their ink, in order, and behind the
/// ink of each comment a line break comes before any other ink.
pub open spec fn says(t: &Tree, es: Seq<usize>, text: Seq<char>, margins: bool) -> bool {
    let source = ink(text_of(t, es), margins);
    let ends = all_comment_ends(t, es, margins);
    &&& ink(text, margins) == source
    &&& forall|k: int| 0 <= k < ends.len() ==> #[trigger] ends[k] == source.len() || breaks_at(text, ends[k], margins)
}

/// A faithful layout says what its elements say in whatever form it is printed.
pub proof fn faithful_layouts_say_it_in_every_form(t: &Tree, es: Seq<usize>, l: Layout, margins: bool, text: Seq<char>)
    requires
        faithful(t, es, l, margins),
        reads(l, true, text),
    ensures
        says(t, es, text, margins),
{
    every_form_has_the_ink(l, true, text, margins);
    let source = ink(text_of(t, es), margins);
    let ends = all_comment_ends(t, es, margins);
    assert forall|k: int| 0 <= k < ends.len() implies #[trigger] ends[k] == source.len() || breaks_at(
        text,
        ends[k],
        margins,
    ) by {
        if ends[k] != source.len() {
            assert(sure_breaks(l, true, 0, margins).contains(0 + ends[k]));
            every_form_breaks(l, true, 0, text, margins, ends[k]);
        }
    }
}

/// Whether each comment of a source is followed by a line break in it, or by the end of what is
/// reproduced. A comment runs to the end of its line, so that holds of what has been read.
pub open spec fn comments_end_lines(t: &Tree, es: Seq<usize>, margins: bool) -> bool {
    says(t, es, text_of(t, es), margins)
}

/// Whether the comment `c` runs to the end of its line: the next token starts with a line break, or
/// there is none.
pub open spec fn runs_to_line_end(t: &Tree, c: int, margins: bool) -> bool {
    ||| forall|d: int| c < d < t.n() ==> !#[trigger] t.tok(d)
    ||| exists|d: int|
        c < d < t.n() && #[trigger] t.tok(d) && breaks_at(t.txt(d), 0, margins) && forall|k: int|
            c < k < d ==> !#[trigger] t.tok(k)
}

proof fn lemma_no_tokens(t: &Tree, lo: int, a: int, b: int)
    requires
        0 <= lo <= a <= b,
        forall|k: int| a <= k < b ==> !#[trigger] t.tok(k),
    ensures
        t.source(lo, b) == t.source(lo, a),
    decreases b - a,
{
    if a < b {
        assert(!t.tok(b - 1));
        lemma_no_tokens(t, lo, a, b - 1);
    }
}

proof fn lemma_source_grows(t: &Tree, lo: int, a: int, b: int)
    requires
        0 <= lo <= a <= b,
    ensures
        exists|rest: Seq<char>| t.source(lo, b) == #[trigger] (t.source(lo, a) + rest),
    decreases b - a,
{
    if a == b {
        assert(t.source(lo, b) =~= t.source(lo, a) + Seq::<char>::empty());
    } else {
        lemma_source_grows(t, lo, a, b - 1);
        let rest = choose|rest: Seq<char>| t.source(lo, b - 1) == #[trigger] (t.source(lo, a) + rest);
        if t.tok(b - 1) {
            assert(t.source(lo, b) =~= t.source(lo, a) + (rest + t.txt(b - 1)));
        }
    }
}

proof fn lemma_comment_ends_break(t: &Tree, hi: int, margins: bool, k: int)
    requires
        0 <= hi <= t.n(),
        forall|c: int| 0 <= c < t.n() && #[trigger] t.tok_is(c, SyntaxKind::Comment) ==> runs_to_line_end(t, c, margins),
        0 <= k < comment_ends(t, 0, hi, 0, margins).len(),
    ensures
        ({
            let p = comment_ends(t, 0, hi, 0, margins)[k];
            let whole = t.source(0, t.n());
            p == ink(whole, margins).len() || breaks_at(whole, p, margins)
        }),
    decreases hi,
{
    let c = hi - 1;
    if !t.tok_is(c, SyntaxKind::Comment) || k < comment_ends(t, 0, c, 0, margins).len() {
        lemma_comment_ends_break(t, c, margins, k);
    } else {
        let here = t.source(0, hi);
        let whole = t.source(0, t.n());
        assert(runs_to_line_end(t, c, margins));
        if forall|d: int| c < d < t.n() ==> !#[trigger] t.tok(d) {
            lemma_no_tokens(t, 0, hi, t.n());
        } else {
            let d = choose|d: int|
                c < d < t.n() && #[trigger] t.tok(d) && breaks_at(t.txt(d), 0, margins) && forall|k: int|
                    c < k < d ==> !#[trigger] t.tok(k);
            lemma_no_tokens(t, 0, hi, d);
            lemma_breaks_in_second(here, t.txt(d), 0, margins);
            assert(t.source(0, d + 1) == here + t.txt(d));
            lemma_source_grows(t, 0, d + 1, t.n());
            let rest = choose|rest: Seq<char>| whole == #[trigger] (t.source(0, d + 1) + rest);
            lemma_breaks_in_first(t.source(0, d + 1), rest, ink(here, margins).len() as int, margins);
        }
    }
}

/// In a source whose comments run to the ends of their lines, each comment is followed by a line
/// break, or by nothing.
pub proof fn comments_of_a_source_end_lines(t: &Tree, margins: bool)
    requires
        t.wf(),
        forall|c: int| 0 <= c < t.n() && #[trigger] t.tok_is(c, SyntaxKind::Comment) ==> runs_to_line_end(t, c, margins),
    ensures
        comments_end_lines(t, seq![0usize], margins),
{
    one_element_has_its_source(t, 0);
    let es = seq![0usize];
    assert(es.drop_last() =~= Seq::<usize>::empty());
    let ends = all_comment_ends(t, es, margins);
    assert(text_of(t, es.drop_last()) =~= Seq::<char>::empty());
    assert(all_comment_ends(t, es.drop_last(), margins) =~= Seq::<int>::empty());
    assert(ends =~= comment_ends(t, 0, t.n(), 0, margins));
    assert forall|k: int| 0 <= k < ends.len() implies #[trigger] ends[k] == ink(text_of(t, es), margins).len() || breaks_at(
        text_of(t, es),
        ends[k],
        margins,
    ) by {
        lemma_comment_ends_break(t, t.n(), margins, k);
    }
}

/// Reproducing the source is faithful to it.
pub proof fn the_source_is_faithful(t: &Tree, es: Seq<usize>, margins: bool)
    requires
        comments_end_lines(t, es, margins),
    ensures
        faithful(t, es, verbatim(text_of(t, es)), margins),
{
    let text = text_of(t, es);
    let l = verbatim(text);
    let ends = all_comment_ends(t, es, margins);
    let total = ink(text, margins).len();
    assert(sure_breaks(l, true, 0, margins) == text_breaks(text, 0, margins));
    assert forall|k: int| 0 <= k < ends.len() implies #[trigger] ends[k] == total || sure_breaks(
        l,
        true,
        0,
        margins,
    ).contains(ends[k]) by {
        text_breaks_are_its_own(text, 0, margins, ends[k]);
        assert(0 + ends[k] == ends[k]);
    }
}

} // verus!

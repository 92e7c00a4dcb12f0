//! Where the lines of sentences end when there are citations.

use vstd::prelude::*;

use crate::context::Boundary;
use crate::ir::Layout;
use crate::lines::{atom_ends_sentence, broken_after, sentence_end, sentence_ends, Atom, Lines};
use crate::signatures::CitationPlacement;

verus! {

/// Whether an atom belongs to the sentence that it starts: it is no citation, or one that reads as
/// part of the text.
pub open spec fn opens_a_sentence(atom: Atom) -> bool {
    ||| atom.citation is None
    ||| atom.citation->0.start > 0
    ||| atom.citation->0.placement == CitationPlacement::Textual
    ||| atom.citation->0.placement == CitationPlacement::Ambiguous && atom.broken_before
}

/// The line ends behind each sentence whose next word is no citation of it: a citation that reads as
/// part of the text starts the line of the next sentence.
pub proof fn the_line_ends_where_the_next_sentence_starts(run: Seq<Atom>, pairs: Seq<Boundary>, k: int)
    requires
        0 <= k < run.len() - 1,
        sentence_ends(pairs, run[k].text, run[k + 1].text),
        opens_a_sentence(run[k + 1]),
    ensures
        broken_after(run, pairs, k),
{
    assert(atom_ends_sentence(run, pairs, k));
    assert(sentence_end(run, k) == k);
}

/// A sentence ends before the citations at the end of its last word, whether or not a tie binds them
/// to it, and they stay on its line.
pub proof fn a_tie_does_not_hide_the_end_of_a_sentence(
    run: Seq<Atom>,
    pairs: Seq<Boundary>,
    k: int,
    word: Seq<char>,
    cites: Seq<char>,
)
    requires
        0 <= k < run.len() - 1,
        sentence_ends(pairs, word, cites),
        word.len() > 0 && word.last() != '~',
        run[k].citation is Some,
        (run[k].text == word + seq!['~'] + cites && run[k].citation->0.start == word.len() + 1) || (run[k].text == word
            + cites && run[k].citation->0.start == word.len()),
        opens_a_sentence(run[k + 1]),
    ensures
        broken_after(run, pairs, k),
{
    let start = run[k].citation->0.start as int;
    let text = run[k].text;
    assert(text.skip(start) =~= cites);
    if start == word.len() {
        assert(text.take(start) =~= word);
    } else {
        assert(text.take(start) =~= word.push('~'));
        assert(word.push('~').drop_last() =~= word);
    }
    assert(atom_ends_sentence(run, pairs, k));
    assert(sentence_end(run, k) == k);
}

/// Atoms `(i, k]` are citations of what stands before them.
pub open spec fn citations_between(run: Seq<Atom>, i: int, k: int) -> bool {
    forall|j: int| i < j <= k ==> !opens_a_sentence(#[trigger] run[j])
}

proof fn lemma_sentence_end(run: Seq<Atom>, i: int)
    requires
        0 <= i < run.len(),
    ensures
        i <= sentence_end(run, i) < run.len(),
        citations_between(run, i, sentence_end(run, i)),
    decreases run.len() - i,
{
    if i + 1 < run.len() && !opens_a_sentence(run[i + 1]) {
        lemma_sentence_end(run, i + 1);
    }
}

/// The line ends nowhere but behind a sentence and its citations: before a break there is an end of
/// a sentence, between two words or before the citations of one, and from there to the break there
/// are citations only.
pub proof fn lines_end_only_behind_sentences(run: Seq<Atom>, pairs: Seq<Boundary>, k: int)
    requires
        0 <= k,
        broken_after(run, pairs, k),
    ensures
        exists|i: int|
            {
                &&& 0 <= i <= k
                &&& #[trigger] citations_between(run, i, k)
                &&& sentence_ends(pairs, run[i].text, run[i + 1].text) || (run[i].citation is Some
                    && run[i].citation->0.start > 0)
            },
{
    let i = choose|i: int|
        0 <= i < run.len() - 1 && #[trigger] atom_ends_sentence(run, pairs, i) && sentence_end(run, i) == k;
    lemma_sentence_end(run, i);
    assert(citations_between(run, i, k));
}

/// The citations at the end of an atom start where the first of them does. A piece behind them that
/// is no citation ends that: the atom has none at its end any more.
pub proof fn citations_end_an_atom(
    s: Lines,
    first: Layout,
    text: Seq<char>,
    placement: CitationPlacement,
    second: Layout,
    other: Seq<char>,
    later: CitationPlacement,
)
    requires
        s.citation is None,
        s.text.len() <= usize::MAX,
    ensures
        s.with_citation(first, text, placement).citation matches Some(c) && c.start == s.text.len() && c.placement
            == placement,
        s.with_citation(first, text, placement).text == s.text + text,
        s.with_citation(first, text, placement).with_citation(second, other, later).citation == s.with_citation(
            first,
            text,
            placement,
        ).citation,
        s.with_citation(first, text, placement).with_piece(second, other).citation is None,
{
}

} // verus!

//! What cutting a text leaves of it.

use vstd::prelude::*;

use crate::text::{split, strip_end, strip_start, trimmed, white, CharSet};

verus! {

/// Whether every character of a text is in a set.
pub open spec fn all_in(text: Seq<char>, set: CharSet) -> bool {
    forall|i: int| 0 <= i < text.len() ==> set.has(#[trigger] text[i])
}

/// Stripping the start of a text takes off characters of the set, and as many as stand there.
pub proof fn stripping_the_start_takes_all_that_stands_there(text: Seq<char>, set: CharSet)
    ensures
        ({
            let rest = strip_start(text, set);
            let n = text.len() - rest.len();
            &&& 0 <= n <= text.len()
            &&& text.skip(n) == rest
            &&& all_in(text.take(n), set)
            &&& rest.len() > 0 ==> !set.has(rest[0])
        }),
    decreases text.len(),
{
    let rest = strip_start(text, set);
    if text.len() > 0 && set.has(text[0]) {
        stripping_the_start_takes_all_that_stands_there(text.drop_first(), set);
        let n = text.len() - rest.len();
        let inner = text.drop_first().take(n - 1);
        assert(text.skip(n) =~= text.drop_first().skip(n - 1));
        assert forall|i: int| 0 <= i < n implies set.has(#[trigger] text.take(n)[i]) by {
            if i > 0 {
                assert(set.has(inner[i - 1]));
            }
        }
    } else {
        assert(text.skip(0) =~= text);
    }
}

/// Stripping the end of a text takes off characters of the set, and as many as stand there.
pub proof fn stripping_the_end_takes_all_that_stands_there(text: Seq<char>, set: CharSet)
    ensures
        ({
            let rest = strip_end(text, set);
            &&& rest.len() <= text.len()
            &&& text.take(rest.len() as int) == rest
            &&& all_in(text.skip(rest.len() as int), set)
            &&& rest.len() > 0 ==> !set.has(rest.last())
        }),
    decreases text.len(),
{
    let rest = strip_end(text, set);
    let n = rest.len() as int;
    if text.len() > 0 && set.has(text.last()) {
        let front = text.drop_last();
        stripping_the_end_takes_all_that_stands_there(front, set);
        assert(text.take(n) =~= front.take(n));
        assert forall|i: int| 0 <= i < text.skip(n).len() implies set.has(#[trigger] text.skip(n)[i]) by {
            if n + i < front.len() {
                assert(set.has(front.skip(n)[i]));
            }
        }
    } else {
        assert(text.take(n) =~= text);
    }
}

/// Trimming a text takes off the white space at both ends and nothing else.
pub proof fn trimming_takes_off_white_space_at_both_ends(text: Seq<char>)
    ensures
        exists|a: Seq<char>, b: Seq<char>|
            {
                &&& text == #[trigger] (a + trimmed(text) + b)
                &&& all_in(a, CharSet::White)
                &&& all_in(b, CharSet::White)
            },
        trimmed(text).len() > 0 ==> !white(trimmed(text)[0]) && !white(trimmed(text).last()),
{
    let rest = strip_start(text, CharSet::White);
    stripping_the_start_takes_all_that_stands_there(text, CharSet::White);
    stripping_the_end_takes_all_that_stands_there(rest, CharSet::White);
    let n = text.len() - rest.len();
    let core = trimmed(text);
    let a = text.take(n);
    let b = rest.skip(core.len() as int);
    assert(rest =~= core + b);
    assert(text =~= a + core + b);
    if core.len() > 0 {
        assert(core[0] == rest[0]);
    }
}

/// The pieces of a text with a separator between them.
pub open spec fn with_between(pieces: Seq<Seq<char>>, sep: char) -> Seq<char>
    decreases pieces.len(),
{
    if pieces.len() == 0 {
        Seq::empty()
    } else if pieces.len() == 1 {
        pieces[0]
    } else {
        with_between(pieces.drop_last(), sep).push(sep) + pieces.last()
    }
}

proof fn lemma_split_len(text: Seq<char>, sep: char)
    ensures
        split(text, sep).len() > 0,
    decreases text.len(),
{
    if text.len() > 0 {
        lemma_split_len(text.drop_last(), sep);
    }
}

/// Splitting a text cuts it at the separators: no piece holds one, and with separators between
/// them the pieces are the text again.
pub proof fn splitting_cuts_at_the_separators(text: Seq<char>, sep: char)
    ensures
        with_between(split(text, sep), sep) == text,
        forall|i: int, j: int|
            0 <= i < split(text, sep).len() && 0 <= j < split(text, sep)[i].len() ==> #[trigger] split(text, sep)[i][j]
                != sep,
    decreases text.len(),
{
    if text.len() == 0 {
        assert(with_between(seq![text], sep) =~= text);
    } else {
        let front = text.drop_last();
        let before = split(front, sep);
        let parts = split(text, sep);
        lemma_split_len(front, sep);
        splitting_cuts_at_the_separators(front, sep);
        assert(text =~= front.push(text.last()));
        if text.last() == sep {
            assert(parts.drop_last() =~= before);
            assert(with_between(parts, sep) =~= with_between(before, sep).push(sep));
        } else {
            assert forall|i: int, j: int| 0 <= i < parts.len() && 0 <= j < parts[i].len() implies #[trigger] parts[i][j]
                != sep by {
                if i < before.len() - 1 {
                    assert(before[i][j] != sep);
                } else if j < before.last().len() {
                    assert(before[before.len() - 1][j] != sep);
                }
            }
            if before.len() == 1 {
                assert(with_between(parts, sep) =~= text);
            } else {
                assert(parts.drop_last() =~= before.drop_last());
                assert(with_between(before, sep) == with_between(before.drop_last(), sep).push(sep) + before.last());
                assert(with_between(parts, sep) =~= text);
            }
        }
    }
}

} // verus!

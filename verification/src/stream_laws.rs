//! Text whose lines are kept, and lists that are cut at their commas.

use vstd::prelude::*;

use crate::context::LowerCtx;
use crate::gap::{gap_end, gap_newlines, lemma_gap_end};
use crate::ir::{space, verbatim, Layout};
use crate::lower::{loose, node, prose_stream};
use crate::segments::{ends_entry, entry_word, with_entry, word_pieces};

verus! {

// ---- kept lines ----------------------------------------------------------------------------

/// What an element that is no white space comes to.
pub open spec fn piece_of(cx: LowerCtx, e: int, fuel: nat) -> Layout {
    if cx.t.tok(e) {
        loose(cx, e)
    } else {
        node(cx, e, fuel)
    }
}

/// Elements `i` and `k` follow one another: between them is nothing but white space.
pub open spec fn follow(cx: LowerCtx, es: Seq<usize>, i: int, k: int) -> bool {
    &&& 0 <= i < k < es.len()
    &&& !cx.t.gap(es[i] as int)
    &&& !cx.t.gap(es[k] as int)
    &&& forall|q: int| i < q < k ==> cx.t.gap(#[trigger] es[q] as int)
}

/// What stands for the white space from `i + 1` up to `k`: nothing where there is none, one space
/// where it holds no line break, a line break where it holds one, and one empty line where it holds
/// more.
pub open spec fn kept_gap(cx: LowerCtx, es: Seq<usize>, i: int, k: int) -> Seq<Layout> {
    if k == i + 1 {
        Seq::empty()
    } else if gap_newlines(cx.t, es, i + 1) == 0 {
        seq![space()]
    } else if gap_newlines(cx.t, es, i + 1) == 1 {
        seq![Layout::HardLine]
    } else {
        seq![Layout::EmptyLine]
    }
}

proof fn lemma_kept_front(cx: LowerCtx, es: Seq<usize>, j: int, i: int, fuel: nat) -> (front: Seq<Layout>)
    requires
        0 <= j <= i < es.len(),
        !cx.t.gap(es[i] as int),
    ensures
        prose_stream(cx, es, j, fuel) == front + prose_stream(cx, es, i, fuel),
    decreases i - j,
{
    let e = es[j] as int;
    if j == i {
        let none = Seq::<Layout>::empty();
        assert(none + prose_stream(cx, es, i, fuel) =~= prose_stream(cx, es, i, fuel));
        none
    } else if cx.t.gap(e) {
        lemma_gap_end(cx.t, es, j);
        lemma_gap_reaches(cx, es, j, i);
        let rest = lemma_kept_front(cx, es, gap_end(cx.t, es, j), i, fuel);
        let newlines = gap_newlines(cx.t, es, j);
        let first = seq![
            if newlines == 0 {
                space()
            } else if newlines == 1 {
                Layout::HardLine
            } else {
                Layout::EmptyLine
            },
        ];
        assert(first + rest + prose_stream(cx, es, i, fuel) =~= first + (rest + prose_stream(cx, es, i, fuel)));
        first + rest
    } else {
        let rest = lemma_kept_front(cx, es, j + 1, i, fuel);
        let first = seq![piece_of(cx, e, fuel)];
        assert(first + rest + prose_stream(cx, es, i, fuel) =~= first + (rest + prose_stream(cx, es, i, fuel)));
        first + rest
    }
}

proof fn lemma_gap_reaches(cx: LowerCtx, es: Seq<usize>, j: int, i: int)
    requires
        0 <= j <= i < es.len(),
        !cx.t.gap(es[i] as int),
    ensures
        gap_end(cx.t, es, j) <= i,
        (forall|q: int| j <= q < i ==> cx.t.gap(#[trigger] es[q] as int)) ==> gap_end(cx.t, es, j) == i,
    decreases i - j,
{
    if j < i {
        lemma_gap_reaches(cx, es, j + 1, i);
        if forall|q: int| j <= q < i ==> cx.t.gap(#[trigger] es[q] as int) {
            assert(cx.t.gap(es[j] as int));
        }
    }
}

/// Where the lines of the author are kept, two elements that follow one another have between them
/// exactly what the source has there: an empty line is neither lost nor made, and neither is a line
/// break.
pub proof fn kept_lines_are_those_of_the_source(cx: LowerCtx, es: Seq<usize>, i: int, k: int, fuel: nat)
    requires
        follow(cx, es, i, k),
    ensures
        exists|front: Seq<Layout>, back: Seq<Layout>|
            prose_stream(cx, es, 0, fuel) == #[trigger] (front + seq![piece_of(cx, es[i] as int, fuel)] + kept_gap(
                cx,
                es,
                i,
                k,
            ) + seq![piece_of(cx, es[k] as int, fuel)] + back),
{
    let front = lemma_kept_front(cx, es, 0, i, fuel);
    let back = prose_stream(cx, es, k + 1, fuel);
    let a = seq![piece_of(cx, es[i] as int, fuel)];
    let b = seq![piece_of(cx, es[k] as int, fuel)];
    let gap = kept_gap(cx, es, i, k);
    if k > i + 1 {
        assert(cx.t.gap(es[i + 1] as int));
        lemma_gap_reaches(cx, es, i + 1, k);
    }
    lemma_kept_pair(cx, es, i, k, fuel);
    assert(front + (a + gap + b + back) =~= front + a + gap + b + back);
}

proof fn lemma_kept_pair(cx: LowerCtx, es: Seq<usize>, i: int, k: int, fuel: nat)
    requires
        follow(cx, es, i, k),
        k > i + 1 ==> gap_end(cx.t, es, i + 1) == k,
    ensures
        prose_stream(cx, es, i, fuel) == seq![piece_of(cx, es[i] as int, fuel)] + kept_gap(cx, es, i, k) + seq![
            piece_of(cx, es[k] as int, fuel),
        ] + prose_stream(cx, es, k + 1, fuel),
{
    let a = seq![piece_of(cx, es[i] as int, fuel)];
    let b = seq![piece_of(cx, es[k] as int, fuel)];
    let gap = kept_gap(cx, es, i, k);
    let back = prose_stream(cx, es, k + 1, fuel);
    assert(prose_stream(cx, es, i, fuel) == a + prose_stream(cx, es, i + 1, fuel));
    assert(prose_stream(cx, es, k, fuel) == b + back);
    if k > i + 1 {
        assert(cx.t.gap(es[i + 1] as int));
        lemma_gap_end(cx.t, es, i + 1);
        assert(prose_stream(cx, es, i + 1, fuel) == gap + prose_stream(cx, es, k, fuel));
    } else {
        assert(gap + prose_stream(cx, es, k, fuel) =~= prose_stream(cx, es, k, fuel));
    }
    assert(a + (gap + (b + back)) =~= a + gap + b + back);
}

// ---- commas --------------------------------------------------------------------------------

/// Pieces and places where the line may end stand in turn, with a piece at both ends.
pub open spec fn cut_in_pieces(pieces: Seq<Layout>) -> bool {
    &&& pieces.len() % 2 == 1
    &&& forall|j: int| 0 <= j < pieces.len() && j % 2 == 1 ==> #[trigger] pieces[j] is TightLine
    &&& forall|j: int| 0 <= j < pieces.len() && j % 2 == 0 ==> #[trigger] pieces[j] is Verbatim
}

proof fn lemma_word_pieces(text: Seq<char>, open: bool, i: int, start: int, pieces: Seq<Layout>)
    requires
        0 <= start <= i <= text.len(),
        pieces.len() == 0 || cut_in_pieces(pieces),
        pieces.len() > 0 || start < text.len(),
    ensures
        cut_in_pieces(word_pieces(text, open, i, start, pieces)),
    decreases text.len() - i,
{
    if i < text.len() {
        if ends_entry(text, open, i) {
            lemma_word_pieces(text, open, i + 1, i + 1, with_entry(pieces, verbatim(text.subrange(start, i + 1))));
        } else {
            lemma_word_pieces(text, open, i + 1, start, pieces);
        }
    }
}

/// A word of a list is cut into pieces at which the line may end, and stays as it is where it has no
/// comma.
pub proof fn words_of_a_list_are_cut_at_commas(text: Seq<char>, open: bool)
    requires
        text.len() > 0,
    ensures
        cut_in_pieces(entry_word(text, true, open)),
        !text.contains(',') ==> entry_word(text, true, open) == seq![verbatim(text)],
        entry_word(text, false, open) == seq![verbatim(text)],
{
    if text.contains(',') {
        lemma_word_pieces(text, open, 0, 0, Seq::empty());
    }
}

/// How many entries end in the first `n` characters of a word: at commas that stand directly behind
/// something.
pub open spec fn entries_ended(text: Seq<char>, open: bool, n: int) -> nat
    decreases n,
{
    if n <= 0 {
        0
    } else {
        entries_ended(text, open, n - 1) + if text[n - 1] == ',' && (if n == 1 {
            open
        } else {
            text[n - 2] != ','
        }) {
            1nat
        } else {
            0
        }
    }
}

proof fn lemma_pieces_counted(text: Seq<char>, open: bool, i: int, start: int, pieces: Seq<Layout>)
    requires
        0 <= start <= i <= text.len(),
        pieces.len() == 0 || pieces.len() % 2 == 1,
        (pieces.len() + 1) / 2 == entries_ended(text, open, i),
        start == i <==> (i == 0 || ends_entry(text, open, i - 1)),
    ensures
        ({
            let all = word_pieces(text, open, i, start, pieces);
            let n = text.len() as int;
            (all.len() + 1) / 2 == entries_ended(text, open, n) + (if n > 0 && !ends_entry(text, open, n - 1) {
                1nat
            } else {
                0
            })
        }),
    decreases text.len() - i,
{
    if i < text.len() {
        if ends_entry(text, open, i) {
            lemma_pieces_counted(text, open, i + 1, i + 1, with_entry(pieces, verbatim(text.subrange(start, i + 1))));
        } else {
            lemma_pieces_counted(text, open, i + 1, start, pieces);
        }
    }
}

/// A word is cut behind each comma that ends an entry, and nowhere else: it has one piece for each
/// such comma, and one more for what stands behind the last of them.
pub proof fn each_entry_of_a_word_is_a_piece(text: Seq<char>, open: bool)
    requires
        text.len() > 0,
        text.contains(','),
    ensures
        ({
            let n = text.len() as int;
            let rest: nat = if text[n - 1] == ',' && (if n == 1 {
                open
            } else {
                text[n - 2] != ','
            }) {
                0
            } else {
                1
            };
            (entry_word(text, true, open).len() + 1) / 2 == entries_ended(text, open, n) + rest
        }),
{
    lemma_pieces_counted(text, open, 0, 0, Seq::empty());
}

} // verus!

//! The overlays and labels behind the markers of items.

use vstd::prelude::*;

use crate::lists::{angle, angle_text, bracket, bracket_text, row_gap_end, with_blank};
use crate::syntax::{collapsible, SyntaxKind, Tree};

verus! {

/// How many brackets that open between `a` and `b` of a row are not closed there.
pub open spec fn open_brackets_in(t: &Tree, row: Seq<Option<usize>>, a: int, b: int) -> int
    decreases b - a,
{
    if b <= a {
        0
    } else {
        open_brackets_in(t, row, a, b - 1) + (if t.k(row[b - 1]->0 as int) == SyntaxKind::LBracket {
            1int
        } else if t.k(row[b - 1]->0 as int) == SyntaxKind::RBracket {
            -1int
        } else {
            0int
        })
    }
}

/// Element `i` of a row is there and is no comment.
pub open spec fn on_one_line(t: &Tree, row: Seq<Option<usize>>, i: int) -> bool {
    row[i] is Some && t.k(row[i]->0 as int) != SyntaxKind::Comment
}

/// The bracket at `j` is closed directly before `end`, with neither a comment nor an empty line
/// before that.
pub open spec fn bracket_closes(t: &Tree, row: Seq<Option<usize>>, j: int, end: int) -> bool {
    &&& 0 <= j < end <= row.len()
    &&& t.k(row[j]->0 as int) == SyntaxKind::LBracket
    &&& open_brackets_in(t, row, j, end) == 0
    &&& forall|q: int| j < q < end ==> #[trigger] open_brackets_in(t, row, j, q) > 0
    &&& forall|q: int| j <= q < end ==> #[trigger] on_one_line(t, row, q)
}

proof fn lemma_bracket_found(t: &Tree, row: Seq<Option<usize>>, j: int, i: int, end: int, text: Seq<char>)
    requires
        bracket_closes(t, row, j, end),
        j <= i < end,
    ensures
        bracket_text(t, row, i, open_brackets_in(t, row, j, i), text) is Some,
        (bracket_text(t, row, i, open_brackets_in(t, row, j, i), text)->0).1 == end,
    decreases end - i,
{
    assert(on_one_line(t, row, i));
    let now = open_brackets_in(t, row, j, i + 1);
    if i + 1 < end {
        assert(now > 0);
        lemma_bracket_found(t, row, j, i + 1, end, text + t.src(row[i]->0 as int));
        lemma_bracket_found(t, row, j, i + 1, end, with_blank(text));
    }
}

proof fn lemma_bracket_sound(t: &Tree, row: Seq<Option<usize>>, j: int, i: int, text: Seq<char>)
    requires
        0 <= j <= i,
        j < row.len(),
        t.k(row[j]->0 as int) == SyntaxKind::LBracket,
        forall|q: int| j < q <= i ==> #[trigger] open_brackets_in(t, row, j, q) > 0,
        forall|q: int| j <= q < i ==> #[trigger] on_one_line(t, row, q),
        bracket_text(t, row, i, open_brackets_in(t, row, j, i), text) is Some,
    ensures
        bracket_closes(t, row, j, (bracket_text(t, row, i, open_brackets_in(t, row, j, i), text)->0).1),
    decreases row.len() - i,
{
    let e = row[i]->0 as int;
    let now = open_brackets_in(t, row, j, i + 1);
    assert(on_one_line(t, row, i));
    if now != 0 {
        let longer = if collapsible(t.k(e)) {
            with_blank(text)
        } else {
            text + t.src(e)
        };
        lemma_bracket_sound(t, row, j, i + 1, longer);
    }
}

/// A label goes from its opening bracket to the bracket that closes it, and there is one exactly
/// where that bracket comes before any comment and any empty line.
pub proof fn a_label_ends_at_the_bracket_that_closes_it(t: &Tree, row: Seq<Option<usize>>, i: int, end: int)
    requires
        0 <= row_gap_end(t, row, i),
    ensures
        (bracket(t, row, i) matches Some(label) && label.1 == end) <==> (row_gap_end(t, row, i) < row.len()
            && row[row_gap_end(t, row, i)] is Some && bracket_closes(t, row, row_gap_end(t, row, i), end)),
{
    let j = row_gap_end(t, row, i);
    let none = Seq::<char>::empty();
    if j < row.len() && row[j] is Some && t.k(row[j]->0 as int) == SyntaxKind::LBracket {
        assert(open_brackets_in(t, row, j, j) == 0);
        if bracket_closes(t, row, j, end) {
            lemma_bracket_found(t, row, j, j, end, none);
        }
        if bracket(t, row, i) is Some {
            lemma_bracket_sound(t, row, j, j, none);
        }
    }
}

/// Element `i` of a row ends in a closing angle bracket.
pub open spec fn ends_angle(t: &Tree, row: Seq<Option<usize>>, i: int) -> bool {
    let e = row[i]->0 as int;
    !collapsible(t.k(e)) && t.src(e).len() > 0 && t.src(e).last() == '>'
}

/// The first element from `j` on that ends in a closing angle bracket stands directly before `end`,
/// with neither a comment nor an empty line before that.
pub open spec fn angle_closes(t: &Tree, row: Seq<Option<usize>>, j: int, end: int) -> bool {
    &&& 0 <= j < end <= row.len()
    &&& ends_angle(t, row, end - 1)
    &&& forall|q: int| j <= q < end - 1 ==> !#[trigger] ends_angle(t, row, q)
    &&& forall|q: int| j <= q < end ==> #[trigger] on_one_line(t, row, q)
}

proof fn lemma_angle_text(t: &Tree, row: Seq<Option<usize>>, i: int, text: Seq<char>, end: int)
    requires
        0 <= i,
    ensures
        (angle_text(t, row, i, text) matches Some(found) && found.1 == end) <==> angle_closes(t, row, i, end),
    decreases row.len() - i,
{
    if i < row.len() {
        let e = row[i]->0 as int;
        if on_one_line(t, row, i) {
            if !ends_angle(t, row, i) {
                let longer = if collapsible(t.k(e)) {
                    with_blank(text)
                } else {
                    text + t.src(e)
                };
                lemma_angle_text(t, row, i + 1, longer, end);
                if angle_closes(t, row, i + 1, end) {
                    assert forall|q: int| i <= q < end - 1 implies !#[trigger] ends_angle(t, row, q) by {}
                    assert forall|q: int| i <= q < end implies #[trigger] on_one_line(t, row, q) by {}
                }
                if angle_closes(t, row, i, end) {
                    assert(end - 1 != i);
                    assert(angle_closes(t, row, i + 1, end));
                }
            } else {
                if angle_closes(t, row, i, end) && end != i + 1 {
                    assert(!ends_angle(t, row, i));
                }
            }
        } else {
            if angle_closes(t, row, i, end) {
                assert(on_one_line(t, row, i));
            }
        }
    }
}

/// An overlay goes from its opening angle bracket to the first closing one, and there is one exactly
/// where that comes before any comment and any empty line.
pub proof fn an_overlay_ends_at_the_first_angle_bracket(t: &Tree, row: Seq<Option<usize>>, i: int, end: int)
    requires
        0 <= row_gap_end(t, row, i),
    ensures
        (angle(t, row, i) matches Some(found) && found.1 == end) <==> ({
            let j = row_gap_end(t, row, i);
            &&& j < row.len()
            &&& row[j] is Some
            &&& t.src(row[j]->0 as int).len() > 0
            &&& t.src(row[j]->0 as int)[0] == '<'
            &&& angle_closes(t, row, j, end)
        }),
{
    lemma_angle_text(t, row, row_gap_end(t, row, i), Seq::empty(), end);
}

} // verus!

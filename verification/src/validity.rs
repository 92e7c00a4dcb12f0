//! Checking that a tree is laid out as its fields say.

use vstd::prelude::*;

use crate::context::{letters_in_words, letters_ok, tile};
use crate::format::Document;
use crate::regions::expl3_regions;
use crate::syntax::{Span, SyntaxKind, Tree, WordAtom};

verus! {

/// What holds of one element of a well-formed tree, beside its parent.
pub open spec fn element_ok(t: &Tree, i: int) -> bool {
    &&& i < t.end(i) <= t.n()
    &&& t.tok(i) ==> t.end(i) == i + 1 && t.from(i) < t.to(i)
    &&& t.from(i) <= t.to(i)
    &&& i > 0 ==> {
        &&& 0 <= t.up(i) < i
        &&& !t.tok(t.up(i))
        &&& t.end(i) <= t.end(t.up(i))
        &&& t.from(t.up(i)) <= t.from(i)
        &&& t.to(i) <= t.to(t.up(i))
    }
}

/// The innermost element around `p`, or `p` itself, that goes on behind the elements before `j`.
pub open spec fn open_around(t: &Tree, p: int, j: int) -> int
    decreases p,
{
    if p <= 0 || t.end(p) > j || !(0 <= t.up(p) < p) {
        p
    } else {
        open_around(t, t.up(p), j)
    }
}

/// The outermost element around `p`, or `p` itself, that ends before `j`, where one does.
pub open spec fn closed_around(t: &Tree, p: int, j: int) -> Option<int>
    decreases p,
{
    if p <= 0 || t.end(p) > j || !(0 <= t.up(p) < p) {
        None
    } else if closed_around(t, t.up(p), j) is Some {
        closed_around(t, t.up(p), j)
    } else {
        Some(p)
    }
}

/// What holds of an element of a well-formed tree beside the one before it: its parent is the
/// innermost element that goes on there, and its previous sibling ends before it starts.
pub open spec fn neighbour_ok(t: &Tree, j: int) -> bool {
    &&& t.up(j) == open_around(t, j - 1, j)
    &&& closed_around(t, j - 1, j) matches Some(q) ==> t.to(q) <= t.from(j)
}

fn check_element(t: &Tree, i: usize) -> (r: bool)
    requires
        i < t.n(),
    ensures
        r == element_ok(t, i as int),
{
    let e = &t.elems[i];
    if e.end <= i || e.end > t.elems.len() || (e.token && (e.end != i + 1 || e.span.start == e.span.end))
        || e.span.start > e.span.end {
        return false;
    }
    if i > 0 {
        if e.parent >= i {
            return false;
        }
        let p = &t.elems[e.parent];
        if p.token || e.end > p.end || p.span.start > e.span.start || e.span.end > p.span.end {
            return false;
        }
    }
    true
}

fn check_neighbour(t: &Tree, j: usize) -> (r: bool)
    requires
        0 < j < t.n(),
        forall|i: int| 0 <= i < j ==> #[trigger] element_ok(t, i),
    ensures
        r == neighbour_ok(t, j as int),
{
    let mut p: usize = j - 1;
    let mut closed: Option<usize> = None;
    while p > 0 && t.elems[p].end <= j
        invariant
            0 < j < t.n(),
            p < j,
            forall|i: int| 0 <= i < j ==> #[trigger] element_ok(t, i),
            open_around(t, p as int, j as int) == open_around(t, j - 1, j as int),
            closed_around(t, j - 1, j as int) == (match closed_around(t, p as int, j as int) {
                Some(q) => Some(q),
                None => match closed {
                    Some(q) => Some(q as int),
                    None => None,
                },
            }),
            closed matches Some(q) ==> q < t.n(),
        decreases p,
    {
        assert(element_ok(t, p as int));
        closed = Some(p);
        p = t.elems[p].parent;
    }
    if t.elems[j].parent != p {
        return false;
    }
    match closed {
        Some(q) => t.elems[q].span.end <= t.elems[j].span.start,
        None => true,
    }
}

/// Whether an element that another one starts in holds it.
spec fn nested(t: &Tree, i: int, j: int) -> bool {
    j < t.end(i) ==> t.end(j) <= t.end(i) && i <= t.up(j) && t.from(i) <= t.from(j) && t.to(j) <= t.to(i)
}

proof fn lemma_open_reaches(t: &Tree, i: int, p: int, j: int)
    requires
        forall|k: int| 0 <= k < j ==> #[trigger] element_ok(t, k),
        forall|k: int| i < k < j ==> #[trigger] nested(t, i, k),
        0 <= i <= p < j,
        j < t.end(i),
    ensures
        i <= open_around(t, p, j) <= p,
        t.end(open_around(t, p, j)) > j,
    decreases p,
{
    assert(element_ok(t, p));
    if p > 0 && t.end(p) <= j {
        assert(nested(t, i, p));
        lemma_open_reaches(t, i, t.up(p), j);
    }
}

proof fn lemma_closed(t: &Tree, p: int, j: int)
    requires
        forall|k: int| 0 <= k < j ==> #[trigger] element_ok(t, k),
        0 <= p < j <= t.end(p),
    ensures
        closed_around(t, p, j) matches Some(q) ==> 0 < q <= p && t.end(q) == j && t.up(q) == open_around(t, p, j),
        closed_around(t, p, j) is None ==> open_around(t, p, j) == p,
    decreases p,
{
    assert(element_ok(t, p));
    if p > 0 && t.end(p) <= j {
        let u = t.up(p);
        assert(element_ok(t, u));
        lemma_closed(t, u, j);
    }
}

/// Elements that fit their parents and their neighbours nest.
proof fn lemma_nested(t: &Tree, i: int, j: int)
    requires
        t.n() > 0,
        t.end(0) == t.n(),
        forall|k: int| 0 <= k < t.n() ==> #[trigger] element_ok(t, k),
        forall|k: int| 0 < k < t.n() ==> #[trigger] neighbour_ok(t, k),
        0 <= i < j < t.n(),
    ensures
        nested(t, i, j),
    decreases j,
{
    assert(element_ok(t, j));
    assert(neighbour_ok(t, j));
    if j < t.end(i) {
        assert forall|k: int| i < k < j implies #[trigger] nested(t, i, k) by {
            lemma_nested(t, i, k);
        }
        lemma_open_reaches(t, i, j - 1, j);
        let c = t.up(j);
        if i < c {
            assert(element_ok(t, c));
            lemma_nested(t, i, c);
        }
    }
}

proof fn lemma_apart(t: &Tree, i: int, j: int)
    requires
        t.n() > 0,
        t.end(0) == t.n(),
        forall|k: int| 0 <= k < t.n() ==> #[trigger] element_ok(t, k),
        forall|k: int| 0 < k < t.n() ==> #[trigger] neighbour_ok(t, k),
        0 <= i < j < t.n(),
        t.end(i) <= j,
    ensures
        t.to(i) <= t.from(j),
    decreases j,
{
    assert(element_ok(t, j));
    assert(neighbour_ok(t, j));
    let c = t.up(j);
    assert(element_ok(t, c));
    assert forall|k: int| 0 < k < j implies #[trigger] nested(t, 0, k) by {
        lemma_nested(t, 0, k);
    }
    lemma_open_reaches(t, 0, j - 1, j);
    if i < c {
        if t.end(i) <= c {
            lemma_apart(t, i, c);
        } else {
            lemma_nested(t, i, c);
        }
    } else if i > c {
        assert(element_ok(t, j - 1));
        lemma_closed(t, j - 1, j);
        let q = closed_around(t, j - 1, j)->0;
        assert(closed_around(t, j - 1, j) is Some);
        assert(element_ok(t, q));
        if i > q {
            lemma_nested(t, q, i);
        } else if i < q {
            if t.end(i) <= q {
                lemma_apart(t, i, q);
            } else {
                lemma_nested(t, i, q);
            }
        }
    }
}

proof fn lemma_neighbour(t: &Tree, j: int)
    requires
        t.wf(),
        0 < j < t.n(),
        forall|k: int| 0 <= k < t.n() ==> #[trigger] element_ok(t, k),
    ensures
        neighbour_ok(t, j),
{
    let u = t.up(j);
    assert(element_ok(t, j));
    assert forall|k: int| u < k < j implies #[trigger] nested(t, u, k) by {
        assert(t.end(u) == t.end(u) && t.end(k) == t.end(k) && t.up(k) == t.up(k) && t.from(k) == t.from(k));
    }
    assert(j < t.end(u)) by {
        assert(j < t.end(j) <= t.end(u));
    }
    lemma_open_reaches(t, u, j - 1, j);
    let c = open_around(t, j - 1, j);
    assert(c <= t.up(j)) by {
        assert(t.end(c) > j && t.up(j) == u);
    }
    assert(element_ok(t, j - 1));
    lemma_closed(t, j - 1, j);
    if let Some(q) = closed_around(t, j - 1, j) {
        assert(t.to(q) == t.to(q) && t.from(j) == t.from(j));
    }
}

/// A tree is well formed where each element fits its parent and its neighbours.
pub proof fn well_formed_by_neighbours(t: Tree)
    ensures
        t.wf() <==> {
            &&& t.n() > 0
            &&& t.up(0) == 0
            &&& !t.tok(0)
            &&& t.end(0) == t.n()
            &&& forall|i: int| 0 <= i < t.n() ==> #[trigger] element_ok(&t, i)
            &&& forall|j: int| 0 < j < t.n() ==> #[trigger] neighbour_ok(&t, j)
        },
{
    if t.wf() {
        assert forall|i: int| 0 <= i < t.n() implies #[trigger] element_ok(&t, i) by {
            assert(i < t.end(i));
            assert(t.from(i) <= t.to(i));
            if i > 0 {
                let u = t.up(i);
                assert(0 <= u < i && !t.tok(u) && t.end(i) <= t.end(u));
                assert(i < t.end(u) && t.from(i) == t.from(i));
            }
        }
        assert forall|j: int| 0 < j < t.n() implies #[trigger] neighbour_ok(&t, j) by {
            lemma_neighbour(&t, j);
        }
    }
    if t.n() > 0 && t.up(0) == 0 && !t.tok(0) && t.end(0) == t.n() && (forall|i: int|
        0 <= i < t.n() ==> #[trigger] element_ok(&t, i)) && (forall|j: int|
        0 < j < t.n() ==> #[trigger] neighbour_ok(&t, j)) {
        assert forall|i: int| 0 <= i < t.n() implies i < #[trigger] t.end(i) <= t.n() by {
            assert(element_ok(&t, i));
        }
        assert forall|i: int| 0 <= i < t.n() && #[trigger] t.tok(i) implies t.end(i) == i + 1 && t.from(i) < t.to(i) by {
            assert(element_ok(&t, i));
        }
        assert forall|i: int| 0 < i < t.n() implies 0 <= #[trigger] t.up(i) < i && !t.tok(t.up(i)) && t.end(i)
            <= t.end(t.up(i)) by {
            assert(element_ok(&t, i));
        }
        assert forall|i: int| 0 <= i < t.n() implies #[trigger] t.from(i) <= t.to(i) by {
            assert(element_ok(&t, i));
        }
        assert forall|i: int, j: int|
            #![trigger t.end(i), t.end(j)]
            0 <= i < j < t.n() && j < t.end(i) implies t.end(j) <= t.end(i) by {
            lemma_nested(&t, i, j);
        }
        assert forall|i: int, j: int|
            #![trigger t.end(i), t.up(j)]
            0 <= i < j < t.n() && j < t.end(i) implies i <= t.up(j) by {
            lemma_nested(&t, i, j);
        }
        assert forall|i: int, j: int|
            #![trigger t.end(i), t.from(j)]
            0 <= i < j < t.n() && j < t.end(i) implies t.from(i) <= t.from(j) && t.to(j) <= t.to(i) by {
            lemma_nested(&t, i, j);
        }
        assert forall|i: int, j: int|
            #![trigger t.to(i), t.from(j)]
            0 <= i < j < t.n() && t.end(i) <= j implies t.to(i) <= t.from(j) by {
            lemma_apart(&t, i, j);
        }
    }
}

impl Tree {
    /// Whether the tree is laid out as its fields say.
    pub fn is_well_formed(&self) -> (r: bool)
        ensures
            r == self.wf(),
    {
        proof {
            well_formed_by_neighbours(*self);
        }
        if self.elems.len() == 0 || self.elems[0].parent != 0 || self.elems[0].token || self.elems[0].end
            != self.elems.len() {
            return false;
        }
        let mut i: usize = 0;
        while i < self.len()
            invariant
                i <= self.n(),
                forall|k: int| 0 <= k < i ==> #[trigger] element_ok(self, k),
                forall|k: int| 0 < k < i ==> #[trigger] neighbour_ok(self, k),
                self.wf() ==> forall|k: int| 0 <= k < self.n() ==> #[trigger] element_ok(self, k),
                self.wf() ==> forall|k: int| 0 < k < self.n() ==> #[trigger] neighbour_ok(self, k),
            decreases self.n() - i,
        {
            if !check_element(self, i) {
                assert(!element_ok(self, i as int));
                return false;
            }
            if i > 0 && !check_neighbour(self, i) {
                assert(!neighbour_ok(self, i as int));
                return false;
            }
            i = i + 1;
        }
        true
    }
}

fn check_tile(letters: &Vec<WordAtom>, n: usize) -> (r: bool)
    ensures
        r == tile(letters@, n as int),
{
    let count: usize = letters.len();
    if count == 0 {
        return n == 0;
    }
    if letters[0].start != 0 || letters[count - 1].end != n {
        return false;
    }
    let mut k: usize = 1;
    while k < count
        invariant
            count == letters@.len(),
            1 <= k <= count,
            forall|i: int, j: int|
                #![trigger letters@[i], letters@[j]]
                0 <= i < j < k && j == i + 1 ==> letters@[i].end == letters@[j].start,
        decreases count - k,
    {
        if letters[k - 1].end != letters[k].start {
            assert(letters@[k - 1].end != letters@[k as int].start);
            return false;
        }
        k = k + 1;
    }
    true
}

fn check_letters(t: &Tree, e: usize) -> (r: bool)
    requires
        e < t.n(),
    ensures
        r == letters_ok(t, e as int),
{
    let letters = &t.elems[e].facts.letters;
    let n: usize = t.elems[e].text.as_str().unicode_len();
    let mut j: usize = 0;
    while j < letters.len()
        invariant
            letters@ == t.elems@[e as int].facts.letters@,
            n == t.txt(e as int).len(),
            j <= letters@.len(),
            forall|k: int| 0 <= k < j ==> (#[trigger] letters@[k]).start <= letters@[k].end <= n,
        decreases letters@.len() - j,
    {
        if letters[j].start > letters[j].end || letters[j].end > n {
            assert(!(letters@[j as int].start <= letters@[j as int].end <= n));
            return false;
        }
        j = j + 1;
    }
    !t.token_is(e, SyntaxKind::Word) || check_tile(letters, n)
}

fn same_spans(a: &Vec<Span>, b: &Vec<Span>) -> (r: bool)
    ensures
        r == (a@ == b@),
{
    if a.len() != b.len() {
        return false;
    }
    let mut i: usize = 0;
    while i < a.len()
        invariant
            a.len() == b.len(),
            i <= a.len(),
            forall|k: int| 0 <= k < i ==> a@[k] == b@[k],
        decreases a.len() - i,
    {
        if a[i].start != b[i].start || a[i].end != b[i].end {
            return false;
        }
        i = i + 1;
    }
    assert(a@ =~= b@);
    true
}

impl Document {
    /// Whether the document can be laid out.
    pub fn is_well_formed(&self) -> (r: bool)
        ensures
            r == self.wf(),
    {
        let t = &self.tree;
        if !t.is_well_formed() {
            return false;
        }
        let mut i: usize = 0;
        while i < t.len()
            invariant
                *t == self.tree,
                t.wf(),
                i <= t.n(),
                forall|e: int| 0 <= e < i ==> #[trigger] letters_ok(t, e),
            decreases t.n() - i,
        {
            if !check_letters(t, i) {
                assert(!letters_in_words(t));
                return false;
            }
            i = i + 1;
        }
        same_spans(&self.regions, &expl3_regions(t))
    }
}

} // verus!

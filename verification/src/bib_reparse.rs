//! Splicing an edit into one token of a bibliography file.
//!
//! The lexer and the grammar of bibliography files depend on the kinds of the tokens alone, but
//! for the names of entry types. An edit inside a word or a number that leaves the kinds as they
//! are leaves the rest of the parse as it is. What the lexer makes of the new text is asked of
//! the caller: [`questions`] gives the texts to lex, [`reparse`] takes the answers.

use vstd::prelude::*;

verus! {

/// The kind of a token.
#[derive(Clone, Copy, Debug, PartialEq, Eq, Structural)]
pub enum BibKind {
    Word,
    Number,
    At,
    Comma,
    Equals,
    Hash,
    Quote,
    LBrace,
    RBrace,
    LParen,
    RParen,
    Whitespace,
    Newline,
    Comment,
    Other,
}

/// A token. Its text is that of the file from `start` up to `end`.
#[derive(Clone, Copy, Debug, PartialEq, Eq, Structural)]
pub struct BibToken {
    pub kind: BibKind,
    pub start: usize,
    pub end: usize,
    /// Whether the token names an entry type.
    pub entry_type: bool,
}

/// A diagnostic.
pub struct BibError {
    pub start: usize,
    pub end: usize,
    pub message: String,
}

/// A parse: the tokens in order, and the diagnostics.
pub struct BibParse {
    pub tokens: Vec<BibToken>,
    pub errors: Vec<BibError>,
}

/// An edit: `insert` in place of what stands from `start` up to `end`.
pub struct Edit {
    pub start: usize,
    pub end: usize,
    pub insert: Vec<u8>,
}

/// A token that the edit may be spliced into, and what the lexer has to say to it.
pub struct Question {
    /// The token's place.
    pub leaf: usize,
    /// The token's new text.
    pub replacement: Vec<u8>,
    /// The new text between the texts of the tokens beside it.
    pub probe: Vec<u8>,
}

/// What the lexer makes of the two texts of a [`Question`].
pub struct Answer {
    pub replacement: Vec<BibKind>,
    pub probe: Vec<BibKind>,
}

/// The longest text that an edit may insert.
pub const MAX_INSERT: usize = 4096;

/// The longest text that a token may have after the edit.
pub const MAX_REPLACEMENT: usize = 8192;

/// The longest token that may stand beside the edited one.
pub const MAX_NEIGHBOUR: usize = 1024;

/// The last position that an edit may reach.
pub const MAX_OFFSET: usize = 0xffff_ffff;

impl BibParse {
    /// The tokens cover the text without gaps, and the diagnostics lie in it.
    pub open spec fn covers(&self, len: int) -> bool {
        &&& tiles(self.tokens@, len)
        &&& forall|k: int| 0 <= k < self.errors@.len() ==> (#[trigger] self.errors@[k]).start <= self.errors@[k].end <= len
    }
}

/// The tokens follow one another from the start of a text of this length to its end.
pub open spec fn tiles(tokens: Seq<BibToken>, len: int) -> bool {
    &&& forall|k: int| 0 <= k < tokens.len() ==> (#[trigger] tokens[k]).start < tokens[k].end <= len
    &&& forall|j: int, k: int|
        #![trigger tokens[j], tokens[k]]
        0 <= j && k == j + 1 && k < tokens.len() ==> tokens[j].end == tokens[k].start
    &&& tokens.len() > 0 ==> tokens[0].start == 0 && tokens.last().end == len
    &&& tokens.len() == 0 ==> len == 0
}

/// What an edit makes of a text.
pub open spec fn applied(text: Seq<u8>, edit: Edit) -> Seq<u8> {
    text.take(edit.start as int) + edit.insert@ + text.skip(edit.end as int)
}

/// Whether a character of the text starts or ends at a position: no byte that continues one
/// stands there.
pub open spec fn between_chars(text: Seq<u8>, at: int) -> bool {
    at == text.len() || (0 <= at < text.len() && !(0x80 <= text[at] < 0xc0))
}

/// Whether the edit is one that splicing is tried on: it fits the text and cuts no character, it
/// is not too long, and `new_text` is what it makes of the text.
pub open spec fn admitted(text: Seq<u8>, edit: Edit, new_text: Seq<u8>) -> bool {
    &&& edit.start <= edit.end <= text.len()
    &&& edit.end <= MAX_OFFSET
    &&& between_chars(text, edit.start as int)
    &&& between_chars(text, edit.end as int)
    &&& edit.insert@.len() <= MAX_INSERT
    &&& new_text == applied(text, edit)
}

/// Where a position behind the edit stands after it.
pub open spec fn moved(at: int, edit: Edit) -> int {
    at - (edit.end - edit.start) + edit.insert@.len()
}

/// Where a diagnostic stands after the edit of the token from `start` up to `end`: where it was
/// before the token, moved behind it, and over the whole token. Any other one is not known.
pub open spec fn mapped(a: int, b: int, start: int, end: int, edit: Edit) -> Option<(int, int)> {
    if b <= start {
        Some((a, b))
    } else if a >= end {
        Some((moved(a, edit), moved(b, edit)))
    } else if a == start && b == end {
        Some((start, moved(end, edit)))
    } else {
        None
    }
}

/// Whether the edit lies in the token. An edit that removes nothing may lie at its edge.
pub open spec fn inside(t: BibToken, edit: Edit) -> bool {
    t.start <= edit.start && edit.end <= t.end
}

pub open spec fn size(t: BibToken) -> int {
    t.end - t.start
}

/// Whether the edit may be spliced into token `i`, if the lexer agrees.
pub open spec fn eligible(base: BibParse, edit: Edit, i: int) -> bool {
    let t = base.tokens@[i];
    &&& inside(t, edit)
    &&& t.kind == BibKind::Word || t.kind == BibKind::Number
    &&& !t.entry_type
    &&& moved(t.end as int, edit) - t.start <= MAX_REPLACEMENT
    &&& i > 0 ==> size(base.tokens@[i - 1]) <= MAX_NEIGHBOUR
    &&& i + 1 < base.tokens@.len() ==> size(base.tokens@[i + 1]) <= MAX_NEIGHBOUR
    &&& forall|k: int|
        0 <= k < base.errors@.len() ==> mapped(
            (#[trigger] base.errors@[k]).start as int,
            base.errors@[k].end as int,
            t.start as int,
            t.end as int,
            edit,
        ) is Some
}

/// The tokens among the first `n` that the edit may be spliced into.
pub open spec fn eligible_leaves(base: BibParse, edit: Edit, n: int) -> Seq<usize>
    decreases n,
{
    if n <= 0 {
        Seq::empty()
    } else if eligible(base, edit, n - 1) {
        eligible_leaves(base, edit, n - 1).push((n - 1) as usize)
    } else {
        eligible_leaves(base, edit, n - 1)
    }
}

/// The kinds of token `i` and of the tokens beside it.
pub open spec fn expected(tokens: Seq<BibToken>, i: int) -> Seq<BibKind> {
    let before = if i > 0 { seq![tokens[i - 1].kind] } else { Seq::empty() };
    let after = if i + 1 < tokens.len() { seq![tokens[i + 1].kind] } else { Seq::empty() };
    before.push(tokens[i].kind) + after
}

/// Whether the lexer leaves the kinds as they are.
pub open spec fn agrees(tokens: Seq<BibToken>, i: int, answer: Answer) -> bool {
    answer.replacement@ == seq![tokens[i].kind] && answer.probe@ == expected(tokens, i)
}

/// A question asks for the new text of its token, and for it between its neighbours.
pub open spec fn asks(base: BibParse, edit: Edit, text: Seq<u8>, new_text: Seq<u8>, q: Question) -> bool {
    let tokens = base.tokens@;
    let i = q.leaf as int;
    let t = tokens[i];
    let before = if i > 0 { text.subrange(tokens[i - 1].start as int, tokens[i - 1].end as int) } else { Seq::empty() };
    let after = if i + 1 < tokens.len() {
        text.subrange(tokens[i + 1].start as int, tokens[i + 1].end as int)
    } else {
        Seq::empty()
    };
    &&& q.replacement@ == new_text.subrange(t.start as int, moved(t.end as int, edit))
    &&& q.probe@ == before + q.replacement@ + after
}

/// The token after the edit of token `i`, where it has place `k`.
pub open spec fn spliced_token(tokens: Seq<BibToken>, edit: Edit, i: int, k: int) -> BibToken {
    let t = tokens[k];
    if k < i {
        t
    } else if k == i {
        BibToken { end: moved(t.end as int, edit) as usize, ..t }
    } else {
        BibToken { start: moved(t.start as int, edit) as usize, end: moved(t.end as int, edit) as usize, ..t }
    }
}

/// A parse is the base with the edit spliced into token `i`.
pub open spec fn spliced(base: BibParse, edit: Edit, i: int, r: BibParse) -> bool {
    let t = base.tokens@[i];
    &&& r.tokens@.len() == base.tokens@.len()
    &&& forall|k: int| 0 <= k < r.tokens@.len() ==> #[trigger] r.tokens@[k] == spliced_token(base.tokens@, edit, i, k)
    &&& r.errors@.len() == base.errors@.len()
    &&& forall|k: int|
        0 <= k < r.errors@.len() ==> mapped(
            base.errors@[k].start as int,
            base.errors@[k].end as int,
            t.start as int,
            t.end as int,
            edit,
        ) == Some(((#[trigger] r.errors@[k]).start as int, r.errors@[k].end as int)) && r.errors@[k].message@
            == base.errors@[k].message@
}

fn same_bytes(a: &Vec<u8>, b: &Vec<u8>) -> (r: bool)
    ensures
        r == (a@ == b@),
{
    if a.len() != b.len() {
        return false;
    }
    let mut i: usize = 0;
    while i < a.len()
        invariant
            a@.len() == b@.len(),
            i <= a.len(),
            forall|k: int| 0 <= k < i ==> a@[k] == b@[k],
        decreases a.len() - i,
    {
        if a[i] != b[i] {
            return false;
        }
        i = i + 1;
    }
    assert(a@ =~= b@);
    true
}

fn append_slice(out: &mut Vec<u8>, text: &Vec<u8>, from: usize, to: usize)
    requires
        from <= to <= text@.len(),
    ensures
        final(out)@ == old(out)@ + text@.subrange(from as int, to as int),
{
    let mut i: usize = from;
    assert(out@ =~= old(out)@ + text@.subrange(from as int, from as int));
    while i < to
        invariant
            from <= i <= to <= text@.len(),
            out@ == old(out)@ + text@.subrange(from as int, i as int),
        decreases to - i,
    {
        out.push(text[i]);
        assert(out@ =~= old(out)@ + text@.subrange(from as int, i as int + 1));
        i = i + 1;
    }
}

fn is_between_chars(text: &Vec<u8>, at: usize) -> (r: bool)
    requires
        at <= text@.len(),
    ensures
        r == between_chars(text@, at as int),
{
    at == text.len() || text[at] < 0x80 || text[at] >= 0xc0
}

/// Whether the edit is one that splicing is tried on.
fn is_admitted(text: &Vec<u8>, edit: &Edit, new_text: &Vec<u8>) -> (r: bool)
    ensures
        r == admitted(text@, *edit, new_text@),
{
    if edit.start > edit.end || edit.end > text.len() || edit.insert.len() > MAX_INSERT || edit.end > MAX_OFFSET {
        return false;
    }
    if !is_between_chars(text, edit.start) || !is_between_chars(text, edit.end) {
        return false;
    }
    let mut wanted: Vec<u8> = Vec::new();
    append_slice(&mut wanted, text, 0, edit.start);
    append_slice(&mut wanted, &edit.insert, 0, edit.insert.len());
    append_slice(&mut wanted, text, edit.end, text.len());
    assert(wanted@ =~= applied(text@, *edit));
    same_bytes(&wanted, new_text)
}

fn map_error(a: usize, b: usize, start: usize, end: usize, edit: &Edit) -> (r: Option<(usize, usize)>)
    requires
        a <= b,
        start <= edit.start <= edit.end <= end,
        b + edit.insert@.len() <= usize::MAX,
        end + edit.insert@.len() <= usize::MAX,
    ensures
        match r {
            Some((x, y)) => mapped(a as int, b as int, start as int, end as int, *edit) == Some((x as int, y as int)),
            None => mapped(a as int, b as int, start as int, end as int, *edit) is None,
        },
{
    let removed: usize = edit.end - edit.start;
    let added: usize = edit.insert.len();
    if b <= start {
        Some((a, b))
    } else if a >= end {
        Some((a - removed + added, b - removed + added))
    } else if a == start && b == end {
        Some((start, end - removed + added))
    } else {
        None
    }
}

fn is_eligible(base: &BibParse, edit: &Edit, i: usize, Ghost(len): Ghost<int>) -> (r: bool)
    requires
        base.covers(len),
        i < base.tokens@.len(),
        edit.start <= edit.end <= len,
        len + edit.insert@.len() <= usize::MAX,
    ensures
        r == eligible(*base, *edit, i as int),
{
    assert(i < base.tokens.len());
    let t = base.tokens[i];
    if !(t.start <= edit.start && edit.end <= t.end) || !(t.kind == BibKind::Word || t.kind == BibKind::Number)
        || t.entry_type {
        return false;
    }
    assert(base.tokens@[i as int].end <= len);
    let new_end: usize = t.end - (edit.end - edit.start) + edit.insert.len();
    if new_end - t.start > MAX_REPLACEMENT {
        return false;
    }
    if i > 0 {
        assert(base.tokens@[i - 1].start < base.tokens@[i - 1].end);
        if base.tokens[i - 1].end - base.tokens[i - 1].start > MAX_NEIGHBOUR {
            return false;
        }
    }
    if i + 1 < base.tokens.len() {
        assert(base.tokens@[i + 1].start < base.tokens@[i + 1].end);
        if base.tokens[i + 1].end - base.tokens[i + 1].start > MAX_NEIGHBOUR {
            return false;
        }
    }
    let mut k: usize = 0;
    while k < base.errors.len()
        invariant
            base.covers(len),
            t == base.tokens@[i as int],
            t.start <= edit.start <= edit.end <= t.end <= len,
            len + edit.insert@.len() <= usize::MAX,
            k <= base.errors.len(),
            forall|j: int|
                0 <= j < k ==> mapped(
                    (#[trigger] base.errors@[j]).start as int,
                    base.errors@[j].end as int,
                    t.start as int,
                    t.end as int,
                    *edit,
                ) is Some,
        decreases base.errors.len() - k,
    {
        let e = &base.errors[k];
        assert(base.errors@[k as int].start <= base.errors@[k as int].end <= len);
        if map_error(e.start, e.end, t.start, t.end, edit).is_none() {
            assert(mapped(
                base.errors@[k as int].start as int,
                base.errors@[k as int].end as int,
                t.start as int,
                t.end as int,
                *edit,
            ) is None);
            return false;
        }
        k = k + 1;
    }
    true
}

/// What the lexer has to say before the edit can be spliced in, token by token. There is nothing
/// to ask where splicing is not tried.
pub fn questions(text: &Vec<u8>, base: &BibParse, edit: &Edit, new_text: &Vec<u8>) -> (out: Vec<Question>)
    requires
        base.covers(text@.len() as int),
        text@.len() + edit.insert@.len() <= usize::MAX,
    ensures
        admitted(text@, *edit, new_text@) ==> out@.len() == eligible_leaves(*base, *edit, base.tokens@.len() as int).len(),
        !admitted(text@, *edit, new_text@) ==> out@.len() == 0,
        forall|k: int|
            0 <= k < out@.len() ==> (#[trigger] out@[k]).leaf == eligible_leaves(*base, *edit, base.tokens@.len() as int)[k]
                && asks(*base, *edit, text@, new_text@, out@[k]),
{
    let mut out: Vec<Question> = Vec::new();
    if !is_admitted(text, edit, new_text) {
        return out;
    }
    let ghost len = text@.len() as int;
    let n: usize = base.tokens.len();
    let mut i: usize = 0;
    while i < n
        invariant
            n == base.tokens@.len(),
            i <= n,
            len == text@.len(),
            base.covers(len),
            admitted(text@, *edit, new_text@),
            text@.len() + edit.insert@.len() <= usize::MAX,
            out@.len() == eligible_leaves(*base, *edit, i as int).len(),
            forall|k: int|
                0 <= k < out@.len() ==> (#[trigger] out@[k]).leaf == eligible_leaves(*base, *edit, i as int)[k] && asks(
                    *base,
                    *edit,
                    text@,
                    new_text@,
                    out@[k],
                ),
        decreases n - i,
    {
        if is_eligible(base, edit, i, Ghost(len)) {
            let t = base.tokens[i];
            assert(base.tokens@[i as int].end <= len);
            assert(new_text@.len() == moved(len, *edit));
            let new_end: usize = t.end - (edit.end - edit.start) + edit.insert.len();
            let mut replacement: Vec<u8> = Vec::new();
            append_slice(&mut replacement, new_text, t.start, new_end);
            let mut probe: Vec<u8> = Vec::new();
            if i > 0 {
                assert(base.tokens@[i - 1].start < base.tokens@[i - 1].end <= len);
                append_slice(&mut probe, text, base.tokens[i - 1].start, base.tokens[i - 1].end);
            }
            append_slice(&mut probe, new_text, t.start, new_end);
            if i + 1 < n {
                assert(base.tokens@[i + 1].start < base.tokens@[i + 1].end <= len);
                append_slice(&mut probe, text, base.tokens[i + 1].start, base.tokens[i + 1].end);
            }
            let q = Question { leaf: i, replacement, probe };
            proof {
                assert(q.replacement@ =~= new_text@.subrange(t.start as int, new_end as int));
                let tokens = base.tokens@;
                let before = if i > 0 {
                    text@.subrange(tokens[i - 1].start as int, tokens[i - 1].end as int)
                } else {
                    Seq::empty()
                };
                let after = if i + 1 < tokens.len() {
                    text@.subrange(tokens[i + 1].start as int, tokens[i + 1].end as int)
                } else {
                    Seq::empty()
                };
                assert(q.probe@ =~= before + q.replacement@ + after);
                assert(asks(*base, *edit, text@, new_text@, q));
            }
            out.push(q);
        }
        i = i + 1;
    }
    out
}

fn same_kinds(a: &Vec<BibKind>, b: &Vec<BibKind>) -> (r: bool)
    ensures
        r == (a@ == b@),
{
    if a.len() != b.len() {
        return false;
    }
    let mut i: usize = 0;
    while i < a.len()
        invariant
            a@.len() == b@.len(),
            i <= a.len(),
            forall|k: int| 0 <= k < i ==> a@[k] == b@[k],
        decreases a.len() - i,
    {
        if a[i] != b[i] {
            return false;
        }
        i = i + 1;
    }
    assert(a@ =~= b@);
    true
}

fn lexer_agrees(tokens: &Vec<BibToken>, i: usize, answer: &Answer) -> (r: bool)
    requires
        i < tokens@.len(),
    ensures
        r == agrees(tokens@, i as int, *answer),
{
    assert(i < tokens.len());
    let mut kinds: Vec<BibKind> = Vec::new();
    if i > 0 {
        kinds.push(tokens[i - 1].kind);
    }
    kinds.push(tokens[i].kind);
    if i + 1 < tokens.len() {
        kinds.push(tokens[i + 1].kind);
    }
    assert(kinds@ =~= expected(tokens@, i as int));
    assert(answer.replacement@.len() == 1 && answer.replacement@[0] == tokens@[i as int].kind ==> answer.replacement@
        =~= seq![tokens@[i as int].kind]);
    answer.replacement.len() == 1 && answer.replacement[0] == tokens[i].kind && same_kinds(&answer.probe, &kinds)
}

fn splice(base: &BibParse, edit: &Edit, i: usize, Ghost(len): Ghost<int>) -> (r: BibParse)
    requires
        base.covers(len),
        i < base.tokens@.len(),
        edit.start <= edit.end <= len,
        len + edit.insert@.len() <= usize::MAX,
        eligible(*base, *edit, i as int),
    ensures
        spliced(*base, *edit, i as int, r),
{
    let t = base.tokens[i];
    assert(base.tokens@[i as int].end <= len);
    let removed: usize = edit.end - edit.start;
    let added: usize = edit.insert.len();
    let mut tokens: Vec<BibToken> = Vec::new();
    let mut k: usize = 0;
    while k < base.tokens.len()
        invariant
            base.covers(len),
            i < base.tokens@.len(),
            t == base.tokens@[i as int],
            t.start <= edit.start <= edit.end <= t.end <= len,
            len + added <= usize::MAX,
            removed == edit.end - edit.start,
            added == edit.insert@.len(),
            k <= base.tokens.len(),
            tokens@.len() == k,
            forall|j: int| 0 <= j < k ==> #[trigger] tokens@[j] == spliced_token(base.tokens@, *edit, i as int, j),
        decreases base.tokens.len() - k,
    {
        let u = base.tokens[k];
        assert(base.tokens@[k as int].start < base.tokens@[k as int].end <= len);
        if k < i {
            tokens.push(u);
        } else if k == i {
            tokens.push(
                BibToken { kind: u.kind, start: u.start, end: u.end - removed + added, entry_type: u.entry_type },
            );
        } else {
            proof {
                lemma_tokens_ordered(base.tokens@, len, i as int, k as int);
            }
            tokens.push(
                BibToken {
                    kind: u.kind,
                    start: u.start - removed + added,
                    end: u.end - removed + added,
                    entry_type: u.entry_type,
                },
            );
        }
        k = k + 1;
    }
    let mut errors: Vec<BibError> = Vec::new();
    let mut k: usize = 0;
    while k < base.errors.len()
        invariant
            base.covers(len),
            i < base.tokens@.len(),
            eligible(*base, *edit, i as int),
            t == base.tokens@[i as int],
            t.start <= edit.start <= edit.end <= t.end <= len,
            len + edit.insert@.len() <= usize::MAX,
            k <= base.errors.len(),
            errors@.len() == k,
            forall|j: int|
                0 <= j < k ==> mapped(
                    base.errors@[j].start as int,
                    base.errors@[j].end as int,
                    t.start as int,
                    t.end as int,
                    *edit,
                ) == Some(((#[trigger] errors@[j]).start as int, errors@[j].end as int)) && errors@[j].message@
                    == base.errors@[j].message@,
        decreases base.errors.len() - k,
    {
        let e = &base.errors[k];
        assert(base.errors@[k as int].start <= base.errors@[k as int].end <= len);
        match map_error(e.start, e.end, t.start, t.end, edit) {
            Some((start, end)) => errors.push(BibError { start, end, message: e.message.clone() }),
            None => {
                assert(false);
            },
        }
        k = k + 1;
    }
    BibParse { tokens, errors }
}

proof fn lemma_tokens_ordered(tokens: Seq<BibToken>, len: int, i: int, k: int)
    requires
        tiles(tokens, len),
        0 <= i < k < tokens.len(),
    ensures
        tokens[i].end <= tokens[k].start,
    decreases k - i,
{
    assert(tokens[k - 1].end == tokens[k].start);
    if i < k - 1 {
        lemma_tokens_ordered(tokens, len, i, k - 1);
        assert(tokens[k - 1].start < tokens[k - 1].end);
    }
}

/// The first of the first `n` questions that the lexer agrees to.
pub open spec fn first_agreed(tokens: Seq<BibToken>, leaves: Seq<usize>, answers: Seq<Answer>, n: int) -> Option<usize>
    decreases n,
{
    if n <= 0 {
        None
    } else {
        match first_agreed(tokens, leaves, answers, n - 1) {
            Some(i) => Some(i),
            None => if agrees(tokens, leaves[n - 1] as int, answers[n - 1]) {
                Some(leaves[n - 1])
            } else {
                None
            },
        }
    }
}

/// The parse of the edited text, where the edit can be spliced into a word or a number: the first
/// token that is eligible and whose kind and neighbours the lexer leaves as they are takes it.
/// Any other edit gives nothing. `answers` are the lexer's answers to [`questions`].
pub fn reparse(
    text: &Vec<u8>,
    base: &BibParse,
    edit: &Edit,
    new_text: &Vec<u8>,
    answers: &Vec<Answer>,
) -> (r: Option<BibParse>)
    requires
        base.covers(text@.len() as int),
        text@.len() + edit.insert@.len() <= usize::MAX,
        admitted(text@, *edit, new_text@) ==> answers@.len() == eligible_leaves(
            *base,
            *edit,
            base.tokens@.len() as int,
        ).len(),
    ensures
        ({
            let leaves = eligible_leaves(*base, *edit, base.tokens@.len() as int);
            let hit = first_agreed(base.tokens@, leaves, answers@, leaves.len() as int);
            match r {
                Some(parse) => admitted(text@, *edit, new_text@) && hit is Some && spliced(*base, *edit, hit->0 as int, parse),
                None => !admitted(text@, *edit, new_text@) || hit is None,
            }
        }),
{
    if !is_admitted(text, edit, new_text) {
        return None;
    }
    let ghost len = text@.len() as int;
    let ghost leaves = eligible_leaves(*base, *edit, base.tokens@.len() as int);
    let n: usize = base.tokens.len();
    let mut asked: usize = 0;
    let mut i: usize = 0;
    proof {
        lemma_leaves(*base, *edit, base.tokens@.len() as int);
    }
    while i < n
        invariant
            n == base.tokens@.len(),
            i <= n,
            len == text@.len(),
            base.covers(len),
            admitted(text@, *edit, new_text@),
            text@.len() + edit.insert@.len() <= usize::MAX,
            leaves == eligible_leaves(*base, *edit, n as int),
            answers@.len() == leaves.len(),
            asked == eligible_leaves(*base, *edit, i as int).len(),
            first_agreed(base.tokens@, leaves, answers@, asked as int) is None,
        decreases n - i,
    {
        if is_eligible(base, edit, i, Ghost(len)) {
            proof {
                lemma_leaf_at(*base, *edit, i as int, n as int);
            }
            assert(asked < answers.len());
            if lexer_agrees(&base.tokens, i, &answers[asked]) {
                proof {
                    lemma_first_stays(base.tokens@, leaves, answers@, asked as int + 1, leaves.len() as int);
                }
                return Some(splice(base, edit, i, Ghost(len)));
            }
            asked = asked + 1;
        }
        i = i + 1;
    }
    None
}

proof fn lemma_leaves(base: BibParse, edit: Edit, n: int)
    requires
        0 <= n <= base.tokens@.len(),
    ensures
        eligible_leaves(base, edit, n).len() <= n,
    decreases n,
{
    if n > 0 {
        lemma_leaves(base, edit, n - 1);
    }
}

/// The leaves found up to `i` start the whole list, and an eligible token `i` comes next.
proof fn lemma_leaf_at(base: BibParse, edit: Edit, i: int, n: int)
    requires
        0 <= i < n <= base.tokens@.len(),
        base.tokens@.len() <= usize::MAX,
        eligible(base, edit, i),
    ensures
        eligible_leaves(base, edit, i).len() < eligible_leaves(base, edit, n).len(),
        eligible_leaves(base, edit, n)[eligible_leaves(base, edit, i).len() as int] == i as usize,
    decreases n - i,
{
    if i < n - 1 {
        lemma_leaf_at(base, edit, i, n - 1);
    }
}

proof fn lemma_first_stays(tokens: Seq<BibToken>, leaves: Seq<usize>, answers: Seq<Answer>, n: int, m: int)
    requires
        n <= m,
        first_agreed(tokens, leaves, answers, n) is Some,
    ensures
        first_agreed(tokens, leaves, answers, m) == first_agreed(tokens, leaves, answers, n),
    decreases m - n,
{
    if n < m {
        lemma_first_stays(tokens, leaves, answers, n, m - 1);
    }
}

/// The spliced parse covers the edited text as the base covers the text: its tokens follow one
/// another to the end, and its diagnostics lie in it.
pub proof fn splicing_covers_the_new_text(base: BibParse, edit: Edit, text: Seq<u8>, new_text: Seq<u8>, i: int, r: BibParse)
    requires
        base.covers(text.len() as int),
        admitted(text, edit, new_text),
        new_text.len() <= usize::MAX,
        0 <= i < base.tokens@.len(),
        eligible(base, edit, i),
        moved(base.tokens@[i].end as int, edit) > base.tokens@[i].start,
        spliced(base, edit, i, r),
    ensures
        r.covers(new_text.len() as int),
{
    let tokens = base.tokens@;
    let len = text.len() as int;
    assert(new_text.len() == moved(len, edit));
    assert forall|k: int| 0 <= k < r.tokens@.len() implies (#[trigger] r.tokens@[k]).start < r.tokens@[k].end <= new_text.len() by {
        assert(r.tokens@[k] == spliced_token(tokens, edit, i, k));
        assert(tokens[k].start < tokens[k].end <= len);
        assert(tokens[i].start < tokens[i].end <= len);
        if k < i {
            lemma_tokens_ordered(tokens, len, k, i);
        } else if k > i {
            lemma_tokens_ordered(tokens, len, i, k);
        }
    }
    assert forall|k: int, m: int|
        #![trigger r.tokens@[k], r.tokens@[m]]
        0 <= k && m == k + 1 && m < r.tokens@.len() implies r.tokens@[k].end == r.tokens@[m].start by {
        assert(r.tokens@[k] == spliced_token(tokens, edit, i, k));
        assert(r.tokens@[k + 1] == spliced_token(tokens, edit, i, k + 1));
        assert(tokens[k].end == tokens[k + 1].start);
        assert(tokens[k + 1].start < tokens[k + 1].end <= len);
        assert(tokens[i].start < tokens[i].end <= len);
        if k >= i {
            lemma_tokens_ordered(tokens, len, i, k + 1);
        }
    }
    assert(r.tokens@[0] == spliced_token(tokens, edit, i, 0));
    assert(r.tokens@[tokens.len() - 1] == spliced_token(tokens, edit, i, tokens.len() - 1));
    assert forall|k: int| 0 <= k < r.errors@.len() implies (#[trigger] r.errors@[k]).start <= r.errors@[k].end <= new_text.len() by {
        assert(base.errors@[k].start <= base.errors@[k].end <= len);
        assert(tokens[i].start < tokens[i].end <= len);
    }
}

/// What stands behind an edit reads the same after it, at the place that it has moved to.
proof fn lemma_behind_edit(text: Seq<u8>, edit: Edit, new_text: Seq<u8>, a: int, b: int)
    requires
        admitted(text, edit, new_text),
        edit.end <= a <= b <= text.len(),
    ensures
        new_text.subrange(moved(a, edit), moved(b, edit)) == text.subrange(a, b),
        0 <= moved(a, edit) <= moved(b, edit) <= new_text.len(),
{
    assert(new_text.subrange(moved(a, edit), moved(b, edit)) =~= text.subrange(a, b));
}

/// Splicing changes one token: every other token keeps its kind and reads in the new text what it
/// read in the old one, and so does what a diagnostic beside the token points at. The changed token
/// keeps its kind and its start, and is a word or a number that names no entry type.
pub proof fn splicing_changes_one_token(
    base: BibParse,
    edit: Edit,
    text: Seq<u8>,
    new_text: Seq<u8>,
    i: int,
    r: BibParse,
    k: int,
)
    requires
        base.covers(text.len() as int),
        admitted(text, edit, new_text),
        new_text.len() <= usize::MAX,
        0 <= i < base.tokens@.len(),
        eligible(base, edit, i),
        spliced(base, edit, i, r),
    ensures
        r.tokens@.len() == base.tokens@.len(),
        0 <= k < r.tokens@.len() ==> r.tokens@[k].kind == base.tokens@[k].kind,
        0 <= k < r.tokens@.len() && k != i ==> new_text.subrange(r.tokens@[k].start as int, r.tokens@[k].end as int)
            == text.subrange(base.tokens@[k].start as int, base.tokens@[k].end as int),
        r.tokens@[i].start == base.tokens@[i].start,
        r.tokens@[i].kind == BibKind::Word || r.tokens@[i].kind == BibKind::Number,
        !base.tokens@[i].entry_type,
        0 <= k < r.errors@.len() && (base.errors@[k].end <= base.tokens@[i].start || base.errors@[k].start
            >= base.tokens@[i].end) ==> new_text.subrange(r.errors@[k].start as int, r.errors@[k].end as int)
            == text.subrange(base.errors@[k].start as int, base.errors@[k].end as int),
{
    let tokens = base.tokens@;
    let len = text.len() as int;
    assert(new_text.len() == moved(len, edit));
    assert(tokens[i].start < tokens[i].end <= len);
    assert(r.tokens@[i] == spliced_token(tokens, edit, i, i));
    if 0 <= k < r.tokens@.len() {
        let t = tokens[k];
        assert(r.tokens@[k] == spliced_token(tokens, edit, i, k));
        assert(t.start < t.end <= len);
        if k < i {
            lemma_tokens_ordered(tokens, len, k, i);
            assert(new_text.subrange(t.start as int, t.end as int) =~= text.subrange(t.start as int, t.end as int));
        } else if k > i {
            lemma_tokens_ordered(tokens, len, i, k);
            lemma_behind_edit(text, edit, new_text, t.start as int, t.end as int);
        }
    }
    if 0 <= k < r.errors@.len() {
        let a = base.errors@[k].start as int;
        let b = base.errors@[k].end as int;
        assert(base.errors@[k].start <= base.errors@[k].end <= len);
        if b <= tokens[i].start {
            assert(new_text.subrange(a, b) =~= text.subrange(a, b));
        } else if a >= tokens[i].end {
            lemma_behind_edit(text, edit, new_text, a, b);
        }
    }
}

} // verus!

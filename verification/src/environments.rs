//! Environments.

use vstd::prelude::*;

use crate::begin::{begin_parts, lower_begin};
use crate::context::{fits, in_tree, node_at, part, room, tok_at, LowerCtx};
use crate::display::{drop_element, without_element};
use crate::docs::{doc_paragraph, is_dtx_doc_paragraph};
use crate::gap::{peel_back, peel_front, peel_leading_break, peel_trailing_break};
use crate::ir::{concat, concat2, concat3, concat4, indent, verbatim, Ir, IrList, Layout};
use crate::lower::{loose, lower_element_stream, lower_loose_token, lower_node, lower_stream, node, stream, streamed};
use crate::math::{lower_math_seq, math_seq, MathSpacing};
use crate::predicates::{leading_comment, leading_inline_comment};
use crate::prose::{paragraph_kind, paragraph_reflow_kind, reflow_elements, reflowed, ReflowKind};
use crate::syntax::{SyntaxKind, Tree};

verus! {

// ---- the header of a picture ---------------------------------------------------------------

pub open spec fn is_paren(c: char) -> bool {
    c == '(' || c == ')'
}

/// Two numbers in brackets, such as `(10,20)`: no bracket inside, and a comma with something on
/// either side.
pub open spec fn is_pair(text: Seq<char>) -> bool {
    &&& text.len() >= 2
    &&& text[0] == '('
    &&& text.last() == ')'
    &&& forall|i: int| 0 < i < text.len() - 1 ==> !is_paren(#[trigger] text[i])
    &&& exists|i: int| 2 <= i < text.len() - 2 && #[trigger] text[i] == ','
}

/// One or two pairs, one directly behind the other.
pub open spec fn picture_tuple(text: Seq<char>) -> bool {
    is_pair(text) || exists|k: int|
        0 <= k <= text.len() && is_pair(#[trigger] text.subrange(0, k)) && is_pair(text.subrange(k, text.len() as int))
}

/// Where the pair that starts at `i` ends.
fn pair_end(text: &str, i: usize) -> (r: Option<usize>)
    requires
        i <= text@.len(),
    ensures
        r matches Some(hi) ==> i < hi <= text@.len() && is_pair(text@.subrange(i as int, hi as int)),
        forall|hi: int|
            i <= hi <= text@.len() && is_pair(#[trigger] text@.subrange(i as int, hi)) ==> r == Some(hi as usize),
{
    let n: usize = text.unicode_len();
    if i >= n || text.get_char(i) != '(' {
        assert forall|hi: int| i <= hi <= text@.len() implies !is_pair(
            #[trigger] text@.subrange(i as int, hi),
        ) by {
            let p = text@.subrange(i as int, hi);
            if p.len() > 0 {
                assert(p[0] == text@[i as int]);
            }
        }
        return None;
    }
    let mut j: usize = i + 1;
    let mut comma = false;
    let mut content = false;
    while j < n
        invariant
            i < j <= n == text@.len(),
            text@[i as int] == '(',
            forall|k: int| i < k < j ==> !is_paren(#[trigger] text@[k]),
            comma == (exists|k: int| i + 2 <= k < j && #[trigger] text@[k] == ','),
            !comma ==> content == (j > i + 1),
            comma ==> content == (exists|k: int| i + 2 <= k < j - 1 && #[trigger] text@[k] == ','),
        decreases n - j,
    {
        let c = text.get_char(j);
        if c == ')' || c == '(' {
            let good = c == ')' && comma && content;
            proof {
                let p = text@.subrange(i as int, j + 1);
                if good {
                    let k = choose|k: int| i + 2 <= k < j - 1 && #[trigger] text@[k] == ',';
                    assert(p[k - i] == ',');
                    assert forall|m: int| 0 < m < p.len() - 1 implies !is_paren(#[trigger] p[m]) by {
                        assert(p[m] == text@[i + m]);
                    }
                }
                assert forall|hi: int| i <= hi <= text@.len() && is_pair(#[trigger] text@.subrange(i as int, hi)) implies hi
                    == j + 1 && good by {
                    let q = text@.subrange(i as int, hi);
                    assert(q.last() == text@[hi - 1]);
                    if hi - 1 > j {
                        assert(q[j - i] == text@[j as int]);
                    }
                    if hi - 1 < j {
                        assert(is_paren(text@[hi - 1]));
                    }
                    let k = choose|k: int| 2 <= k < q.len() - 2 && #[trigger] q[k] == ',';
                    assert(text@[i + k] == ',');
                }
            }
            if good {
                return Some(j + 1);
            }
            return None;
        }
        let ghost was_comma = comma;
        let ghost was_content = content;
        if c == ',' && !comma && content {
            comma = true;
            content = false;
        } else {
            content = true;
        }
        proof {
            if was_comma {
                let k = choose|k: int| i + 2 <= k < j && #[trigger] text@[k] == ',';
                assert(text@[k] == ',');
            } else {
                if comma {
                    assert(text@[j as int] == ',');
                }
            }
        }
        j = j + 1;
    }
    assert forall|hi: int| i <= hi <= text@.len() implies !is_pair(#[trigger] text@.subrange(i as int, hi)) by {
        let q = text@.subrange(i as int, hi);
        if q.len() >= 2 {
            assert(q.last() == text@[hi - 1]);
            assert(!is_paren(text@[hi - 1]));
        }
    }
    None
}

pub fn is_picture_tuple(text: &str) -> (r: bool)
    ensures
        r == picture_tuple(text@),
{
    let n: usize = text.unicode_len();
    assert(text@.subrange(0, n as int) =~= text@);
    match pair_end(text, 0) {
        Some(hi) => {
            if hi == n {
                return true;
            }
            let r = match pair_end(text, hi) {
                Some(end) => end == n,
                None => false,
            };
            proof {
                assert(is_pair(text@.subrange(0, hi as int)));
                if r {
                    assert(is_pair(text@.subrange(hi as int, n as int)));
                } else if picture_tuple(text@) {
                    assert(!is_pair(text@));
                    let k = choose|k: int|
                        0 <= k <= text@.len() && is_pair(#[trigger] text@.subrange(0, k)) && is_pair(
                            text@.subrange(k, text@.len() as int),
                        );
                    assert(hi == k as usize);
                }
            }
            r
        },
        None => false,
    }
}

/// The size of a picture, where the parser has put it at the front of the body.
pub open spec fn picture_header(t: &Tree, n: int, body: Seq<usize>) -> Option<usize> {
    if !t.node_is(n, SyntaxKind::Environment) || !t.named(n, "picture"@) || !node_at(t, body, 0, SyntaxKind::Paragraph) {
        None
    } else {
        match (t.kid(n, SyntaxKind::Begin), t.head(body[0] as int)) {
            (Some(b), Some(e)) => if t.k(e as int) == SyntaxKind::Word && t.to(b as int) == t.from(e as int)
                && picture_tuple(t.txt(e as int)) {
                Some(e)
            } else {
                None
            },
            _ => None,
        }
    }
}

pub fn picture_header_token(cx: LowerCtx, n: usize, body: &Vec<usize>) -> (r: Option<usize>)
    requires
        cx.ok(),
        n < cx.t.n(),
        in_tree(cx.t, body@),
    ensures
        r == picture_header(cx.t, n as int, body@),
        r matches Some(e) ==> e < cx.t.n(),
{
    proof {
        reveal(LowerCtx::ok);
    }
    if !cx.t.is_node(n, SyntaxKind::Environment) || !cx.t.is_named(n, "picture") || !cx.is_node_at(
        body,
        0,
        SyntaxKind::Paragraph,
    ) {
        return None;
    }
    match (cx.t.nth_child(n, SyntaxKind::Begin, 0), cx.t.first_token(body[0])) {
        (Some(b), Some(e)) => {
            if cx.t.kind(e) == SyntaxKind::Word && cx.t.span(b).end == cx.t.span(e).start && is_picture_tuple(
                cx.t.text(e),
            ) {
                Some(e)
            } else {
                None
            }
        },
        _ => None,
    }
}

// ---- the parts of an environment -----------------------------------------------------------

/// The children before the first header from `i` on.
pub open spec fn header_at(t: &Tree, es: Seq<usize>, i: int) -> int
    decreases es.len() - i,
{
    if i < 0 || i >= es.len() || t.node_is(es[i] as int, SyntaxKind::Begin) {
        i
    } else {
        header_at(t, es, i + 1)
    }
}

/// What stands before the header of an environment.
pub open spec fn env_leading(cx: LowerCtx, n: int, fuel: nat) -> Layout
    decreases fuel, 2int, 0int,
{
    if fuel == 0 {
        Layout::Nil
    } else {
        streamed(cx, cx.t.kids(n).subrange(0, header_at(cx.t, cx.t.kids(n), 0)), (fuel - 1) as nat)
    }
}

pub fn lower_environment_leading(cx: LowerCtx, n: usize, Ghost(fuel): Ghost<nat>) -> (r: Ir)
    requires
        cx.ok(),
        room(cx.t, n as int, fuel),
    ensures
        r@ == env_leading(cx, n as int, fuel),
    decreases fuel, 2int, 0int,
{
    let es = cx.children(n);
    let mut i: usize = 0;
    while i < es.len() && !cx.t.is_node(es[i], SyntaxKind::Begin)
        invariant
            in_tree(cx.t, es@),
            i <= es@.len(),
            header_at(cx.t, es@, i as int) == header_at(cx.t, es@, 0),
        decreases es@.len() - i,
    {
        i = i + 1;
    }
    lower_stream(cx, &part(&es, 0, i), Ghost((fuel - 1) as nat))
}

/// The header, the body and the end of an environment, as far as they have been seen.
#[verifier::ext_equal]
pub struct Framing {
    pub seen: bool,
    pub begin: Layout,
    pub end: Layout,
    pub body: Seq<usize>,
    pub tail: int,
}

/// The framing that the children before `i` come to.
pub open spec fn framing_of(cx: LowerCtx, es: Seq<usize>, i: int, fuel: nat) -> Framing
    decreases fuel, 73int, i,
{
    if i <= 0 || i > es.len() {
        Framing { seen: false, begin: Layout::Nil, end: Layout::Nil, body: Seq::empty(), tail: 0 }
    } else {
        let s = framing_of(cx, es, i - 1, fuel);
        let e = es[i - 1] as int;
        if cx.t.node_is(e, SyntaxKind::Begin) {
            let (begin, tail) = begin_parts(cx, e, fuel);
            Framing { seen: true, begin, body: s.body + tail, tail: tail.len() as int, ..s }
        } else if cx.t.node_is(e, SyntaxKind::End) {
            Framing { end: node(cx, e, fuel), ..s }
        } else if !s.seen {
            s
        } else {
            Framing { body: s.body.push(es[i - 1]), ..s }
        }
    }
}

/// The parts of an environment.
#[verifier::ext_equal]
pub struct EnvSplit {
    pub leading: Layout,
    pub begin: Layout,
    pub body: Seq<usize>,
    pub end: Layout,
    /// The comment of the body that has been put behind the header.
    pub lifted: Option<usize>,
    /// How many elements of the body stood in the header.
    pub tail: int,
    /// The token of the body that has been put behind the header.
    pub header_token: Option<usize>,
}

pub open spec fn env_split(cx: LowerCtx, n: int, fuel: nat) -> EnvSplit
    decreases fuel, 3int, 0int,
{
    let s = if fuel == 0 {
        Framing { seen: false, begin: Layout::Nil, end: Layout::Nil, body: Seq::empty(), tail: 0 }
    } else {
        framing_of(cx, cx.t.kids(n), cx.t.kids(n).len() as int, (fuel - 1) as nat)
    };
    let lifted = leading_comment(cx.t, s.body, 0);
    let header_token = picture_header(cx.t, n, s.body);
    let begin = match lifted {
        Some(c) => concat2(s.begin, verbatim(cx.t.txt(c as int))),
        None => s.begin,
    };
    EnvSplit {
        leading: env_leading(cx, n, fuel),
        begin: match header_token {
            Some(e) => concat2(begin, loose(cx, e as int)),
            None => begin,
        },
        body: s.body,
        end: s.end,
        lifted,
        tail: s.tail,
        header_token,
    }
}

pub struct EnvParts {
    pub leading: Ir,
    pub begin: Ir,
    pub body: Vec<usize>,
    pub end: Ir,
    pub lifted: Option<usize>,
    pub tail_len: usize,
    pub body_header_token: Option<usize>,
}

impl EnvParts {
    pub open spec fn v(&self) -> EnvSplit {
        EnvSplit {
            leading: self.leading@,
            begin: self.begin@,
            body: self.body@,
            end: self.end@,
            lifted: self.lifted,
            tail: self.tail_len as int,
            header_token: self.body_header_token,
        }
    }
}

fn append(body: &mut Vec<usize>, tail: &Vec<usize>, Ghost(t): Ghost<&Tree>, Ghost(fuel): Ghost<nat>)
    requires
        fits(t, old(body)@, fuel),
        fits(t, tail@, fuel),
    ensures
        final(body)@ == old(body)@ + tail@,
        fits(t, final(body)@, fuel),
{
    let ghost before = body@;
    let mut i: usize = 0;
    assert(before + tail@.subrange(0, 0) =~= before);
    while i < tail.len()
        invariant
            i <= tail@.len(),
            fits(t, body@, fuel),
            fits(t, tail@, fuel),
            body@ == before + tail@.subrange(0, i as int),
        decreases tail@.len() - i,
    {
        assert(room(t, tail@[i as int] as int, fuel));
        body.push(tail[i]);
        assert(before + tail@.subrange(0, i + 1) =~= (before + tail@.subrange(0, i as int)).push(tail@[i as int]));
        i = i + 1;
    }
    assert(tail@.subrange(0, tail@.len() as int) =~= tail@);
}

pub fn split_environment(cx: LowerCtx, n: usize, Ghost(fuel): Ghost<nat>) -> (r: EnvParts)
    requires
        cx.ok(),
        room(cx.t, n as int, fuel),
    ensures
        r.v() == env_split(cx, n as int, fuel),
        fuel > 0,
        fits(cx.t, r.body@, (fuel - 1) as nat),
        r.tail_len <= r.body@.len(),
        r.lifted matches Some(c) ==> c < cx.t.n(),
        r.body_header_token matches Some(c) ==> c < cx.t.n(),
    decreases fuel, 3int, 0int,
{
    let ghost less = (fuel - 1) as nat;
    let leading = lower_environment_leading(cx, n, Ghost(fuel));
    let es = cx.children(n);
    let mut begin = Ir::Nil;
    let mut end = Ir::Nil;
    let mut body: Vec<usize> = Vec::new();
    let mut tail_len: usize = 0;
    let mut seen_begin = false;
    let mut i: usize = 0;
    assert(body@ =~= Seq::<usize>::empty());
    while i < es.len()
        invariant
            cx.ok(),
            fuel > 0,
            less == fuel - 1,
            fits(cx.t, es@, less),
            fits(cx.t, body@, less),
            i <= es@.len(),
            tail_len <= body@.len(),
            framing_of(cx, es@, i as int, less) == (Framing {
                seen: seen_begin,
                begin: begin@,
                end: end@,
                body: body@,
                tail: tail_len as int,
            }),
        decreases es@.len() - i,
    {
        let e: usize = es[i];
        assert(room(cx.t, es@[i as int] as int, less));
        if cx.t.is_node(e, SyntaxKind::Begin) {
            seen_begin = true;
            let (header, tail) = lower_begin(cx, e, Ghost(less));
            begin = header;
            tail_len = tail.len();
            append(&mut body, &tail, Ghost(cx.t), Ghost(less));
        } else if cx.t.is_node(e, SyntaxKind::End) {
            end = lower_node(cx, e, Ghost(less));
        } else if seen_begin {
            body.push(e);
        }
        i = i + 1;
    }
    let lifted = leading_inline_comment(cx, &body);
    begin = match lifted {
        Some(comment) => Ir::concat2(begin, Ir::verbatim(cx.t.text(comment))),
        None => begin,
    };
    let body_header_token = picture_header_token(cx, n, &body);
    begin = match body_header_token {
        Some(token) => Ir::concat2(begin, lower_loose_token(cx, token)),
        None => begin,
    };
    EnvParts { leading, begin, body, end, lifted, tail_len, body_header_token }
}

// ---- the body ------------------------------------------------------------------------------

/// Whether a paragraph is laid out anew: text is, documentation and code are not.
pub open spec fn reflows_as_prose(cx: LowerCtx, n: int) -> bool {
    cx.wrapping() && !doc_paragraph(cx.t, n) && !(cx.regions@.len() > 0 && cx.expl_in(n))
}

pub fn paragraph_reflows_as_prose(cx: LowerCtx, n: usize) -> (r: bool)
    requires
        cx.ok(),
        n < cx.t.n(),
    ensures
        r == reflows_as_prose(cx, n as int),
{
    cx.wraps_prose() && !is_dtx_doc_paragraph(cx, n) && !(cx.any_expl3() && cx.overlaps_expl3(n))
}

/// Where the blanks from `i` on end.
pub open spec fn spaces_end(t: &Tree, es: Seq<usize>, i: int) -> int
    decreases es.len() - i,
{
    if tok_at(t, es, i, SyntaxKind::Whitespace) {
        spaces_end(t, es, i + 1)
    } else {
        i
    }
}

fn skip_spaces(cx: LowerCtx, es: &Vec<usize>, start: usize) -> (r: usize)
    requires
        in_tree(cx.t, es@),
        start <= es@.len(),
    ensures
        r == spaces_end(cx.t, es@, start as int),
        start <= r <= es@.len(),
{
    let mut i: usize = start;
    while cx.token_at(es, i, SyntaxKind::Whitespace)
        invariant
            in_tree(cx.t, es@),
            start <= i <= es.len(),
            spaces_end(cx.t, es@, i as int) == spaces_end(cx.t, es@, start as int),
        decreases es@.len() - i,
    {
        assert(i < es.len());
        i = i + 1;
    }
    i
}

/// The elements without a comment that they start with.
pub open spec fn past_comment(t: &Tree, es: Seq<usize>) -> Seq<usize> {
    let i = spaces_end(t, es, 0);
    if tok_at(t, es, i, SyntaxKind::Comment) {
        es.subrange(i + 1, es.len() as int)
    } else {
        es
    }
}

/// A node without the comment that it starts with.
pub open spec fn node_past_comment(cx: LowerCtx, n: int, fuel: nat) -> Layout
    decreases fuel, 4int, 0int,
{
    if fuel == 0 {
        Layout::Nil
    } else {
        let es = past_comment(cx.t, cx.t.kids(n));
        let less = (fuel - 1) as nat;
        if cx.t.k(n) == SyntaxKind::Paragraph && cx.wrapping() {
            reflowed(cx, es, ReflowKind::Prose, less).0
        } else {
            streamed(cx, es, less)
        }
    }
}

pub fn lower_node_dropping_leading_comment(cx: LowerCtx, n: usize, Ghost(fuel): Ghost<nat>) -> (r: Ir)
    requires
        cx.ok(),
        room(cx.t, n as int, fuel),
    ensures
        r@ == node_past_comment(cx, n as int, fuel),
    decreases fuel, 4int, 0int,
{
    let ghost less = (fuel - 1) as nat;
    let all = cx.children(n);
    let i: usize = skip_spaces(cx, &all, 0);
    let es = if cx.token_at(&all, i, SyntaxKind::Comment) {
        part(&all, i + 1, all.len())
    } else {
        all
    };
    if cx.t.kind(n) == SyntaxKind::Paragraph && cx.wraps_prose() {
        reflow_elements(cx, &es, ReflowKind::Prose, Ghost(less))
    } else {
        lower_stream(cx, &es, Ghost(less))
    }
}

/// A body without the comment that it starts with.
pub open spec fn body_past_comment(cx: LowerCtx, es: Seq<usize>, fuel: nat) -> Layout
    decreases fuel, 85int, 0int,
{
    let i = spaces_end(cx.t, es, 0);
    let rest = es.subrange(i + 1, es.len() as int);
    if i >= es.len() {
        Layout::Nil
    } else if cx.t.tok_is(es[i] as int, SyntaxKind::Comment) {
        streamed(cx, rest, fuel)
    } else if !cx.t.tok(es[i] as int) {
        concat(seq![node_past_comment(cx, es[i] as int, fuel)] + stream(cx, rest, 0, fuel))
    } else {
        concat(seq![loose(cx, es[i] as int)] + stream(cx, rest, 0, fuel))
    }
}

pub fn lower_body_dropping_leading_comment(cx: LowerCtx, es: &Vec<usize>, Ghost(fuel): Ghost<nat>) -> (r: Ir)
    requires
        cx.ok(),
        fits(cx.t, es@, fuel),
    ensures
        r@ == body_past_comment(cx, es@, fuel),
    decreases fuel, 85int, 0int,
{
    let i: usize = skip_spaces(cx, es, 0);
    if i >= es.len() {
        return Ir::Nil;
    }
    assert(room(cx.t, es@[i as int] as int, fuel));
    let rest = part(es, i + 1, es.len());
    if cx.t.token_is(es[i], SyntaxKind::Comment) {
        return lower_stream(cx, &rest, Ghost(fuel));
    }
    let first = if !cx.t.is_token(es[i]) {
        lower_node_dropping_leading_comment(cx, es[i], Ghost(fuel))
    } else {
        lower_loose_token(cx, es[i])
    };
    lower_first_and_rest(cx, first, &rest, Ghost(fuel))
}

/// A layout and the elements behind it.
fn lower_first_and_rest(cx: LowerCtx, first: Ir, rest: &Vec<usize>, Ghost(fuel): Ghost<nat>) -> (r: Ir)
    requires
        cx.ok(),
        fits(cx.t, rest@, fuel),
    ensures
        r@ == concat(seq![first@] + stream(cx, rest@, 0, fuel)),
    decreases fuel, 61int, 0int,
{
    let mut out = IrList::new();
    let ghost l = first@;
    out.push(first);
    assert(out@ =~= seq![l]);
    out.extend(lower_element_stream(cx, rest, Ghost(fuel)));
    Ir::concat(out)
}

/// The body of an environment. Text that stands behind the header on its line is one paragraph
/// with what follows it.
pub open spec fn env_body(
    cx: LowerCtx,
    body: Seq<usize>,
    tail: int,
    lifted: bool,
    header_token: Option<usize>,
    fuel: nat,
) -> Layout
    decreases fuel, 86int, 0int,
{
    if header_token is Some && body.len() > 0 && !cx.t.tok(body[0] as int) {
        body_past_token(cx, body, header_token, fuel)
    } else if tail > 0 && node_at(cx.t, body, tail, SyntaxKind::Paragraph) && reflows_as_prose(cx, body[tail] as int) {
        body_spliced(cx, body, tail, fuel)
    } else if tail > 0 && node_at(cx.t, body, tail, SyntaxKind::Math) {
        body_behind_math(cx, body, tail, fuel)
    } else if lifted {
        body_past_comment(cx, body, fuel)
    } else {
        streamed(cx, body, fuel)
    }
}

/// A body without one token of its first paragraph.
pub open spec fn body_past_token(cx: LowerCtx, body: Seq<usize>, token: Option<usize>, fuel: nat) -> Layout
    decreases fuel, 85int, 0int,
{
    let p = body[0] as int;
    let es = without_element(cx.t.kids(p), token, cx.t.kids(p).len() as int);
    let first = if cx.wrapping() {
        reflowed(cx, es, paragraph_kind(cx, p), fuel).0
    } else {
        streamed(cx, es, fuel)
    };
    concat(seq![first] + stream(cx, body.subrange(1, body.len() as int), 0, fuel))
}

fn lower_body_past_token(cx: LowerCtx, body: &Vec<usize>, token: Option<usize>, Ghost(fuel): Ghost<nat>) -> (r: Ir)
    requires
        cx.ok(),
        fits(cx.t, body@, fuel),
        body@.len() > 0,
    ensures
        r@ == body_past_token(cx, body@, token, fuel),
    decreases fuel, 85int, 0int,
{
    let p: usize = body[0];
    assert(room(cx.t, body@[0] as int, fuel));
    let all = cx.children(p);
    let es = drop_element(cx.t, &all, token, Ghost(fuel));
    let first = if cx.wraps_prose() {
        reflow_elements(cx, &es, paragraph_reflow_kind(cx, p), Ghost(fuel))
    } else {
        lower_stream(cx, &es, Ghost(fuel))
    };
    lower_first_and_rest(cx, first, &part(body, 1, body.len()), Ghost(fuel))
}

/// A body whose first `tail` elements go into the paragraph behind them.
pub open spec fn body_spliced(cx: LowerCtx, body: Seq<usize>, tail: int, fuel: nat) -> Layout
    decreases fuel, 85int, 0int,
{
    let p = body[tail] as int;
    concat(
        seq![reflowed(cx, body.subrange(0, tail) + cx.t.kids(p), paragraph_kind(cx, p), fuel).0] + stream(
            cx,
            body.subrange(tail + 1, body.len() as int),
            0,
            fuel,
        ),
    )
}

fn lower_body_spliced(cx: LowerCtx, body: &Vec<usize>, tail: usize, Ghost(fuel): Ghost<nat>) -> (r: Ir)
    requires
        cx.ok(),
        fits(cx.t, body@, fuel),
        tail < body@.len(),
    ensures
        r@ == body_spliced(cx, body@, tail as int, fuel),
    decreases fuel, 85int, 0int,
{
    let n: usize = body.len();
    let p: usize = body[tail];
    assert(room(cx.t, body@[tail as int] as int, fuel));
    let mut es = part(body, 0, tail);
    let inner = cx.children(p);
    append(&mut es, &inner, Ghost(cx.t), Ghost(fuel));
    let spliced = reflow_elements(cx, &es, paragraph_reflow_kind(cx, p), Ghost(fuel));
    lower_first_and_rest(cx, spliced, &part(body, tail + 1, n), Ghost(fuel))
}

/// A body whose first `tail` elements are math, as is what follows them.
pub open spec fn body_behind_math(cx: LowerCtx, body: Seq<usize>, tail: int, fuel: nat) -> Layout
    decreases fuel, 85int, 0int,
{
    concat(
        seq![math_seq(cx, body.subrange(0, tail), MathSpacing::Normal, false, fuel)] + stream(
            cx,
            body.subrange(tail, body.len() as int),
            0,
            fuel,
        ),
    )
}

fn lower_body_behind_math(cx: LowerCtx, body: &Vec<usize>, tail: usize, Ghost(fuel): Ghost<nat>) -> (r: Ir)
    requires
        cx.ok(),
        fits(cx.t, body@, fuel),
        tail < body@.len(),
    ensures
        r@ == body_behind_math(cx, body@, tail as int, fuel),
    decreases fuel, 85int, 0int,
{
    let lead = part(body, 0, tail);
    let rest = part(body, tail, body.len());
    assert(fits(cx.t, lead@, fuel));
    assert(fits(cx.t, rest@, fuel));
    let prefix = lower_math_seq(cx, lead, MathSpacing::Normal, false, Ghost(fuel));
    lower_first_and_rest(cx, prefix, &rest, Ghost(fuel))
}

pub fn lower_env_body(
    cx: LowerCtx,
    body: &Vec<usize>,
    tail_len: usize,
    lifted: bool,
    body_header_token: Option<usize>,
    Ghost(fuel): Ghost<nat>,
) -> (r: Ir)
    requires
        cx.ok(),
        fits(cx.t, body@, fuel),
    ensures
        r@ == env_body(cx, body@, tail_len as int, lifted, body_header_token, fuel),
    decreases fuel, 86int, 0int,
{
    if body_header_token.is_some() && body.len() > 0 && !cx.t.is_token(body[0]) {
        lower_body_past_token(cx, body, body_header_token, Ghost(fuel))
    } else if tail_len > 0 && cx.is_node_at(body, tail_len, SyntaxKind::Paragraph) && paragraph_reflows_as_prose(
        cx,
        body[tail_len],
    ) {
        lower_body_spliced(cx, body, tail_len, Ghost(fuel))
    } else if tail_len > 0 && cx.is_node_at(body, tail_len, SyntaxKind::Math) {
        lower_body_behind_math(cx, body, tail_len, Ghost(fuel))
    } else if lifted {
        lower_body_dropping_leading_comment(cx, body, Ghost(fuel))
    } else {
        lower_stream(cx, body, Ghost(fuel))
    }
}

// ---- environments --------------------------------------------------------------------------

/// A line break, with an empty line where there was one.
pub open spec fn break_of(blank: bool) -> Layout {
    if blank {
        Layout::EmptyLine
    } else {
        Layout::HardLine
    }
}

pub fn line_break(blank: bool) -> (r: Ir)
    ensures
        r@ == break_of(blank),
{
    if blank {
        Ir::EmptyLine
    } else {
        Ir::HardLine
    }
}

pub open spec fn concat5(a: Layout, b: Layout, c: Layout, d: Layout, e: Layout) -> Layout {
    concat(seq![a, b, c, d, e])
}

fn make_concat5(a: Ir, b: Ir, c: Ir, d: Ir, e: Ir) -> (r: Ir)
    ensures
        r@ == concat5(a@, b@, c@, d@, e@),
{
    let ghost all = seq![a@, b@, c@, d@, e@];
    let mut out = IrList::new();
    out.push(a);
    out.push(b);
    out.push(c);
    out.push(d);
    out.push(e);
    assert(out@ =~= all);
    Ir::concat(out)
}

/// The body between its header and its end, on lines of its own.
pub open spec fn enframed(begin: Layout, body: Layout, end: Layout, no_indent: bool) -> Layout {
    let (lead_blank, rest) = peel_front(body);
    let (trail_blank, solid) = peel_back(rest);
    if solid is Nil {
        concat3(begin, Layout::HardLine, end)
    } else if no_indent {
        concat5(begin, break_of(lead_blank), solid, break_of(trail_blank), end)
    } else {
        concat4(begin, indent(concat2(break_of(lead_blank), solid)), break_of(trail_blank), end)
    }
}

pub fn enframe(begin: Ir, body: &Ir, end: Ir, no_indent: bool) -> (r: Ir)
    ensures
        r@ == enframed(begin@, body@, end@, no_indent),
{
    let (lead_blank, rest) = peel_leading_break(body);
    let (trail_blank, solid) = peel_trailing_break(&rest);
    let lead = line_break(lead_blank);
    let trail = line_break(trail_blank);
    if solid.is_nil() {
        Ir::concat3(begin, Ir::HardLine, end)
    } else if no_indent {
        make_concat5(begin, lead, solid, trail, end)
    } else {
        Ir::concat4(begin, Ir::indent(Ir::concat2(lead, solid)), trail, end)
    }
}

/// Whether the body of the environment keeps the indentation of its surroundings.
pub open spec fn env_flush(cx: LowerCtx, n: int) -> bool {
    match cx.env(n) {
        Some(sig) => sig.no_indent,
        None => false,
    }
}

pub fn environment_no_indent(cx: LowerCtx, n: usize) -> (r: bool)
    requires
        n < cx.t.n(),
    ensures
        r == env_flush(cx, n as int),
{
    match cx.env_sig(n) {
        Some(sig) => sig.no_indent,
        None => false,
    }
}

/// An environment: header, body and end on lines of their own.
pub open spec fn environment(cx: LowerCtx, n: int, fuel: nat) -> Layout
    decreases fuel, 5int, 0int,
{
    if fuel == 0 {
        Layout::Nil
    } else {
        let s = env_split(cx, n, fuel);
        let body = env_body(
            cx.absorbing(s.body),
            s.body,
            s.tail,
            s.lifted is Some,
            s.header_token,
            (fuel - 1) as nat,
        );
        concat2(s.leading, enframed(s.begin, body, s.end, env_flush(cx, n)))
    }
}

pub fn lower_environment(cx: LowerCtx, n: usize, Ghost(fuel): Ghost<nat>) -> (r: Ir)
    requires
        cx.ok(),
        room(cx.t, n as int, fuel),
    ensures
        r@ == environment(cx, n as int, fuel),
    decreases fuel, 5int, 0int,
{
    let s = split_environment(cx, n, Ghost(fuel));
    let body_cx = cx.absorbing_trailing_control_newline(&s.body);
    let body = lower_env_body(
        body_cx,
        &s.body,
        s.tail_len,
        s.lifted.is_some(),
        s.body_header_token,
        Ghost((fuel - 1) as nat),
    );
    let env = enframe(s.begin, &body, s.end, environment_no_indent(cx, n));
    Ir::concat2(s.leading, env)
}

// ---- environments behind a margin ----------------------------------------------------------

/// Whether the token is of a margin that stands at the front of a line.
pub open spec fn is_frame(t: &Tree, e: int) -> bool {
    t.tok_is(e, SyntaxKind::DocMargin) || t.tok_is(e, SyntaxKind::Guard)
}

/// Where the margin of the closing line starts, the first `hi` elements being the body.
pub open spec fn frame_start(t: &Tree, body: Seq<usize>, hi: int) -> int
    decreases hi,
{
    if 0 < hi <= body.len() && (is_frame(t, body[hi - 1] as int) || t.tok_is(
        body[hi - 1] as int,
        SyntaxKind::Whitespace,
    )) {
        frame_start(t, body, hi - 1)
    } else {
        hi
    }
}

/// Where the body ends and the margin of the closing line starts. There may be no margin.
pub open spec fn closing_frame(t: &Tree, body: Seq<usize>) -> Option<int> {
    let lo = frame_start(t, body, body.len() as int);
    if exists|i: int| lo <= i < body.len() && is_frame(t, #[trigger] body[i] as int) {
        Some(lo)
    } else {
        None
    }
}

pub fn split_closing_frame(cx: LowerCtx, body: &Vec<usize>) -> (r: Option<usize>)
    requires
        in_tree(cx.t, body@),
    ensures
        r is Some == closing_frame(cx.t, body@) is Some,
        r matches Some(lo) ==> closing_frame(cx.t, body@) == Some(lo as int) && lo <= body@.len(),
{
    let mut lo: usize = body.len();
    let mut has_margin = false;
    while lo > 0 && (cx.t.token_is(body[lo - 1], SyntaxKind::DocMargin) || cx.t.token_is(body[lo - 1], SyntaxKind::Guard)
        || cx.t.token_is(body[lo - 1], SyntaxKind::Whitespace))
        invariant
            in_tree(cx.t, body@),
            lo <= body@.len(),
            frame_start(cx.t, body@, lo as int) == frame_start(cx.t, body@, body@.len() as int),
            has_margin == (exists|i: int| lo <= i < body@.len() && is_frame(cx.t, #[trigger] body@[i] as int)),
        decreases lo,
    {
        let margin = !cx.t.token_is(body[lo - 1], SyntaxKind::Whitespace);
        proof {
            if has_margin {
                let i = choose|i: int| lo <= i < body@.len() && is_frame(cx.t, #[trigger] body@[i] as int);
                assert(lo - 1 <= i && is_frame(cx.t, body@[i] as int));
            }
            assert(margin == is_frame(cx.t, body@[lo - 1] as int));
        }
        has_margin = has_margin || margin;
        lo = lo - 1;
    }
    if has_margin {
        Some(lo)
    } else {
        None
    }
}

/// The body between its header and its end, each of which has its line behind a margin.
pub open spec fn margin_framed(begin: Layout, body: Layout, frame: Layout, end: Layout) -> Layout {
    let (lead_blank, rest) = peel_front(body);
    let (trail_blank, solid) = peel_back(rest);
    if solid is Nil {
        if frame is Nil {
            concat3(begin, Layout::HardLine, end)
        } else {
            concat4(begin, break_of(trail_blank), frame, end)
        }
    } else if frame is Nil {
        concat5(begin, break_of(lead_blank), solid, break_of(trail_blank), end)
    } else {
        concat(seq![begin, break_of(lead_blank), solid, break_of(trail_blank), frame, end])
    }
}

fn enframe_behind_margin(begin: Ir, body: &Ir, frame: Ir, end: Ir) -> (r: Ir)
    ensures
        r@ == margin_framed(begin@, body@, frame@, end@),
{
    let (lead_blank, rest) = peel_leading_break(body);
    let (trail_blank, solid) = peel_trailing_break(&rest);
    let lead = line_break(lead_blank);
    let trail = line_break(trail_blank);
    if solid.is_nil() {
        if frame.is_nil() {
            Ir::concat3(begin, Ir::HardLine, end)
        } else {
            Ir::concat4(begin, trail, frame, end)
        }
    } else if frame.is_nil() {
        make_concat5(begin, lead, solid, trail, end)
    } else {
        let ghost all = seq![begin@, lead@, solid@, trail@, frame@, end@];
        let mut out = IrList::new();
        out.push(begin);
        out.push(lead);
        out.push(solid);
        out.push(trail);
        out.push(frame);
        out.push(end);
        assert(out@ =~= all);
        Ir::concat(out)
    }
}

/// An environment whose header and end have their lines behind a margin. Its body is not
/// indented.
pub open spec fn margin_framed_environment(cx: LowerCtx, n: int, fuel: nat) -> Layout
    decreases fuel, 5int, 0int,
{
    if fuel == 0 {
        Layout::Nil
    } else {
        let less = (fuel - 1) as nat;
        let s = env_split(cx, n, fuel);
        let (es, frame) = match closing_frame(cx.t, s.body) {
            Some(lo) => (s.body.subrange(0, lo), streamed(cx, s.body.subrange(lo, s.body.len() as int), less)),
            None => (s.body, Layout::Nil),
        };
        let body = env_body(cx.absorbing(es), es, s.tail, s.lifted is Some, None, less);
        concat2(s.leading, margin_framed(s.begin, body, frame, s.end))
    }
}

pub fn lower_margin_framed_environment(cx: LowerCtx, n: usize, Ghost(fuel): Ghost<nat>) -> (r: Ir)
    requires
        cx.ok(),
        room(cx.t, n as int, fuel),
    ensures
        r@ == margin_framed_environment(cx, n as int, fuel),
    decreases fuel, 5int, 0int,
{
    let ghost less = (fuel - 1) as nat;
    let s = split_environment(cx, n, Ghost(fuel));
    let (es, frame) = match split_closing_frame(cx, &s.body) {
        Some(lo) => {
            let frame = part(&s.body, lo, s.body.len());
            (part(&s.body, 0, lo), lower_stream(cx, &frame, Ghost(less)))
        },
        None => (s.body, Ir::Nil),
    };
    let body_cx = cx.absorbing_trailing_control_newline(&es);
    let body = lower_env_body(body_cx, &es, s.tail_len, s.lifted.is_some(), None, Ghost(less));
    let env = enframe_behind_margin(s.begin, &body, frame, s.end);
    Ir::concat2(s.leading, env)
}

} // verus!

//! The header of an environment.

use vstd::prelude::*;

use crate::context::{fits, in_tree, part, room, tok_at, LowerCtx};
use crate::flatten::{declared_slot, is_arg, is_argument, slot_of};
use crate::gap::{blanks_end, gap_end, gap_newlines, gap_of, lemma_blanks_end, lemma_gap_end};
use crate::ir::{concat, concat2, indent, verbatim, Ir, IrList, Layout};
use crate::lower::{loose, lower_element_stream, lower_loose_token, lower_node, lower_stream, node, stream, streamed};
use crate::predicates::{any_tok, any_token};
use crate::segments::{
    column_spec_group, lower_column_spec_group, lower_optional, lower_segmented_group, optional, segmented_group,
};
use crate::signatures::{ArgSpec, ContentKind};
use crate::syntax::{SyntaxKind, Tree};

verus! {

// ---- which groups are declared arguments ---------------------------------------------------

/// How far the declared arguments of an environment have been matched.
#[derive(Clone, Copy, Debug, PartialEq, Eq, Structural)]
pub struct Matched {
    /// How many are behind.
    pub slot: usize,
    /// Whether the groups have been the declared ones so far.
    pub matches: bool,
}

impl Matched {
    /// The declared argument that the group fills.
    pub open spec fn spec_of(self, t: &Tree, args: Seq<ArgSpec>, e: int) -> Option<ArgSpec> {
        if self.matches {
            slot_of(t, args, e)
        } else {
            None
        }
    }

    /// How far they have been matched behind the group.
    pub open spec fn behind(self, t: &Tree, args: Seq<ArgSpec>, e: int) -> Matched {
        let slot = if self.matches {
            t.elems@[e].facts.reached
        } else {
            self.slot
        };
        Matched { slot, matches: self.matches && !(self.spec_of(t, args, e) is None && slot < args.len()) }
    }

    fn take_group(self, cx: LowerCtx, args: &Vec<ArgSpec>, e: usize) -> (r: (Option<ArgSpec>, Matched))
        requires
            e < cx.t.n(),
        ensures
            r.0 == self.spec_of(cx.t, args@, e as int),
            r.1 == self.behind(cx.t, args@, e as int),
    {
        let spec = if self.matches {
            declared_slot(cx, args, e)
        } else {
            None
        };
        let slot: usize = if self.matches {
            cx.t.elems[e].facts.reached
        } else {
            self.slot
        };
        (spec, Matched { slot, matches: self.matches && !(spec.is_none() && slot < args.len()) })
    }
}

// ---- a header without comments -------------------------------------------------------------

/// An argument of an environment: keys and values and column specifications may be put on
/// lines, and a declared argument is indented.
pub open spec fn begin_argument(
    cx: LowerCtx,
    args: Seq<ArgSpec>,
    aligned: bool,
    m: Matched,
    e: int,
    fuel: nat,
) -> Layout
    decreases fuel, 51int, 0int,
{
    let spec = m.spec_of(cx.t, args, e);
    let keyval = spec is Some && spec->0.content == ContentKind::Keyval;
    let columns = !keyval && cx.t.k(e) == SyntaxKind::Group && spec is Some && m.behind(cx.t, args, e).slot == args.len()
        && aligned;
    let cut = if keyval {
        if cx.t.k(e) == SyntaxKind::Optional {
            optional(cx, e, true, fuel)
        } else {
            segmented_group(cx, e, SyntaxKind::LBrace, SyntaxKind::RBrace, true, fuel)
        }
    } else if columns {
        column_spec_group(cx, e, fuel)
    } else {
        None
    };
    let l = match cut {
        Some(l) => l,
        None => node(cx, e, fuel),
    };
    if spec is Some {
        indent(l)
    } else {
        l
    }
}

fn lower_begin_argument(
    cx: LowerCtx,
    args: &Vec<ArgSpec>,
    aligned: bool,
    m: Matched,
    e: usize,
    Ghost(fuel): Ghost<nat>,
) -> (r: Ir)
    requires
        cx.ok(),
        room(cx.t, e as int, fuel),
    ensures
        r@ == begin_argument(cx, args@, aligned, m, e as int, fuel),
    decreases fuel, 51int, 0int,
{
    let (spec, after) = m.take_group(cx, args, e);
    let keyval = match spec {
        Some(spec) => spec.content == ContentKind::Keyval,
        None => false,
    };
    let columns = !keyval && cx.t.kind(e) == SyntaxKind::Group && spec.is_some() && after.slot == args.len() && aligned;
    let cut = if keyval {
        if cx.t.kind(e) == SyntaxKind::Optional {
            lower_optional(cx, e, true, Ghost(fuel))
        } else {
            lower_segmented_group(cx, e, SyntaxKind::LBrace, SyntaxKind::RBrace, true, Ghost(fuel))
        }
    } else if columns {
        lower_column_spec_group(cx, e, Ghost(fuel))
    } else {
        None
    };
    let ir = match cut {
        Some(ir) => ir,
        None => lower_node(cx, e, Ghost(fuel)),
    };
    if spec.is_some() {
        Ir::indent(ir)
    } else {
        ir
    }
}

/// Whether a declared argument stands at `i`.
pub open spec fn argument_follows(t: &Tree, args: Seq<ArgSpec>, m: Matched, es: Seq<usize>, i: int) -> bool {
    0 <= i < es.len() && is_arg(t, es[i] as int) && m.spec_of(t, args, es[i] as int) is Some
}

/// The pieces of a header once the elements from `i` on are behind, and where its tail starts:
/// the header ends at white space that no declared argument and no comment follows.
pub open spec fn header_parts(
    cx: LowerCtx,
    args: Seq<ArgSpec>,
    aligned: bool,
    es: Seq<usize>,
    i: int,
    m: Matched,
    head: Seq<Layout>,
    fuel: nat,
) -> (Seq<Layout>, int)
    decreases fuel, 70int, es.len() - i,
{
    if i < 0 || i >= es.len() {
        (head, es.len() as int)
    } else {
        proof {
            lemma_gap_end(cx.t, es, i);
            lemma_blanks_end(cx.t, es, i + 1);
        }
        let t = cx.t;
        let e = es[i] as int;
        if cx.in_doc_region && t.tok_is(e, SyntaxKind::DocMargin) {
            header_parts(cx, args, aligned, es, blanks_end(t, es, i + 1), m, head, fuel)
        } else if t.gap(e) {
            let end = gap_end(t, es, i);
            if argument_follows(t, args, m, es, end) {
                header_parts(cx, args, aligned, es, end, m, head, fuel)
            } else if gap_newlines(t, es, i) == 0 && tok_at(t, es, end, SyntaxKind::Comment) {
                header_parts(cx, args, aligned, es, end, m, head.push(verbatim(gap_of(t, es, i).flat())), fuel)
            } else {
                (head, i)
            }
        } else if is_arg(t, e) {
            header_parts(
                cx,
                args,
                aligned,
                es,
                i + 1,
                m.behind(t, args, e),
                head.push(begin_argument(cx, args, aligned, m, e, fuel)),
                fuel,
            )
        } else if t.tok(e) {
            header_parts(cx, args, aligned, es, i + 1, m, head.push(loose(cx, e)), fuel)
        } else {
            header_parts(cx, args, aligned, es, i + 1, m, head.push(node(cx, e, fuel)), fuel)
        }
    }
}

fn lower_header(cx: LowerCtx, args: &Vec<ArgSpec>, aligned: bool, es: &Vec<usize>, Ghost(fuel): Ghost<nat>) -> (r: (Ir, usize))
    requires
        cx.ok(),
        fits(cx.t, es@, fuel),
    ensures
        ({
            let (head, tail) = header_parts(
                cx,
                args@,
                aligned,
                es@,
                0,
                Matched { slot: 0, matches: true },
                Seq::empty(),
                fuel,
            );
            r.0@ == concat(head) && r.1 == tail
        }),
        r.1 <= es@.len(),
    decreases fuel, 71int, 0int,
{
    let mut head = IrList::new();
    let mut m = Matched { slot: 0, matches: true };
    let ghost start = header_parts(cx, args@, aligned, es@, 0, m, Seq::empty(), fuel);
    let mut i: usize = 0;
    while i < es.len()
        invariant
            cx.ok(),
            fits(cx.t, es@, fuel),
            i <= es@.len(),
            start == header_parts(
                cx,
                args@,
                aligned,
                es@,
                0,
                Matched { slot: 0, matches: true },
                Seq::empty(),
                fuel,
            ),
            header_parts(cx, args@, aligned, es@, i as int, m, head@, fuel) == start,
        decreases es@.len() - i,
    {
        let e: usize = es[i];
        assert(room(cx.t, es@[i as int] as int, fuel));
        if cx.in_doc_region && cx.t.token_is(e, SyntaxKind::DocMargin) {
            i = cx.skip_blanks(es, i + 1);
        } else if cx.t.is_gap(e) {
            let (gap, end) = cx.consume_gap_widened(es, i);
            let follows = end < es.len() && is_argument(cx, es[end]) && m.take_group(cx, args, es[end]).0.is_some();
            if follows {
                i = end;
            } else if gap.newlines == 0 && cx.token_at(es, end, SyntaxKind::Comment) {
                head.push(Ir::verbatim(gap.gap.flat()));
                i = end;
            } else {
                return (Ir::concat(head), i);
            }
        } else if is_argument(cx, e) {
            head.push(lower_begin_argument(cx, args, aligned, m, e, Ghost(fuel)));
            m = m.take_group(cx, args, e).1;
            i = i + 1;
        } else if cx.t.is_token(e) {
            head.push(lower_loose_token(cx, e));
            i = i + 1;
        } else {
            head.push(lower_node(cx, e, Ghost(fuel)));
            i = i + 1;
        }
    }
    (Ir::concat(head), es.len())
}

// ---- a header with comments ----------------------------------------------------------------

/// Which of the first `i` elements are declared arguments, and how far the arguments have been
/// matched behind them.
pub open spec fn declared_before(t: &Tree, args: Seq<ArgSpec>, es: Seq<usize>, i: int) -> (Matched, Seq<bool>)
    decreases i,
{
    if i <= 0 || i > es.len() {
        (Matched { slot: 0, matches: true }, Seq::empty())
    } else {
        let (m, flags) = declared_before(t, args, es, i - 1);
        let e = es[i - 1] as int;
        if is_arg(t, e) {
            (m.behind(t, args, e), flags.push(m.spec_of(t, args, e) is Some))
        } else {
            (m, flags.push(false))
        }
    }
}

/// Which of the first `i` elements are declared arguments in braces that are required.
pub open spec fn required_before(t: &Tree, args: Seq<ArgSpec>, es: Seq<usize>, i: int) -> Seq<bool>
    decreases i,
{
    if i <= 0 || i > es.len() {
        Seq::empty()
    } else {
        let (m, _) = declared_before(t, args, es, i - 1);
        let e = es[i - 1] as int;
        required_before(t, args, es, i - 1).push(
            is_arg(t, e) && t.k(e) == SyntaxKind::Group && match m.spec_of(t, args, e) {
                Some(spec) => spec.required,
                None => false,
            },
        )
    }
}

fn declared_flags(cx: LowerCtx, args: &Vec<ArgSpec>, es: &Vec<usize>) -> (r: (Vec<bool>, Vec<bool>))
    requires
        in_tree(cx.t, es@),
    ensures
        r.0@ == declared_before(cx.t, args@, es@, es@.len() as int).1,
        r.1@ == required_before(cx.t, args@, es@, es@.len() as int),
        r.0@.len() == es@.len(),
        r.1@.len() == es@.len(),
{
    let mut declared: Vec<bool> = Vec::new();
    let mut required: Vec<bool> = Vec::new();
    let mut m = Matched { slot: 0, matches: true };
    let mut i: usize = 0;
    assert(declared@ =~= Seq::<bool>::empty());
    assert(required@ =~= Seq::<bool>::empty());
    while i < es.len()
        invariant
            in_tree(cx.t, es@),
            i <= es@.len(),
            declared@.len() == i,
            required@.len() == i,
            (m, declared@) == declared_before(cx.t, args@, es@, i as int),
            required@ == required_before(cx.t, args@, es@, i as int),
        decreases es@.len() - i,
    {
        let e: usize = es[i];
        if is_argument(cx, e) {
            let (spec, after) = m.take_group(cx, args, e);
            declared.push(spec.is_some());
            required.push(
                cx.t.kind(e) == SyntaxKind::Group && match spec {
                    Some(spec) => spec.required,
                    None => false,
                },
            );
            m = after;
        } else {
            declared.push(false);
            required.push(false);
        }
        i = i + 1;
    }
    (declared, required)
}

/// The flag at `i`. There is none past the end.
pub open spec fn flag_at(flags: Seq<bool>, i: int) -> bool {
    0 <= i < flags.len() && flags[i]
}

fn flag(flags: &Vec<bool>, i: usize) -> (r: bool)
    ensures
        r == flag_at(flags@, i as int),
{
    i < flags.len() && flags[i]
}

/// Where the header ends: at white space that no declared argument and no comment follows.
pub open spec fn header_end(t: &Tree, es: Seq<usize>, declared: Seq<bool>, i: int) -> int
    decreases es.len() - i,
{
    if i < 0 || i >= es.len() {
        es.len() as int
    } else if t.gap(es[i] as int) && !flag_at(declared, gap_end(t, es, i)) && !(gap_newlines(t, es, i) == 0 && tok_at(
        t,
        es,
        gap_end(t, es, i),
        SyntaxKind::Comment,
    )) {
        i
    } else {
        header_end(t, es, declared, i + 1)
    }
}

fn find_header_end(cx: LowerCtx, es: &Vec<usize>, declared: &Vec<bool>) -> (r: usize)
    requires
        in_tree(cx.t, es@),
    ensures
        r == header_end(cx.t, es@, declared@, 0),
        r <= es@.len(),
{
    let mut i: usize = 0;
    while i < es.len()
        invariant
            in_tree(cx.t, es@),
            i <= es@.len(),
            header_end(cx.t, es@, declared@, i as int) == header_end(cx.t, es@, declared@, 0),
        decreases es@.len() - i,
    {
        if cx.t.is_gap(es[i]) {
            let (newlines, end) = cx.consume_widened_gap_slice(es, i);
            if !flag(declared, end) && !(newlines == 0 && cx.token_at(es, end, SyntaxKind::Comment)) {
                return i;
            }
        }
        i = i + 1;
    }
    es.len()
}

/// Whether the last thing before `i` other than blanks is a declared argument.
pub open spec fn argument_before(t: &Tree, es: Seq<usize>, declared: Seq<bool>, i: int) -> bool
    decreases i,
{
    if i <= 0 || i > es.len() {
        false
    } else if t.tok_is(es[i - 1] as int, SyntaxKind::Whitespace) {
        argument_before(t, es, declared, i - 1)
    } else {
        !t.tok(es[i - 1] as int) && flag_at(declared, i - 1)
    }
}

/// Whether a comment at `i` trails an argument, with a required argument on a later line.
pub open spec fn comment_continues(t: &Tree, es: Seq<usize>, declared: Seq<bool>, required: Seq<bool>, i: int) -> bool {
    tok_at(t, es, i, SyntaxKind::Comment) && argument_before(t, es, declared, i) && gap_newlines(t, es, i + 1) > 0
        && flag_at(required, gap_end(t, es, i + 1))
}

/// The first such comment from `i` on.
pub open spec fn continuation(t: &Tree, es: Seq<usize>, declared: Seq<bool>, required: Seq<bool>, i: int) -> Option<int>
    decreases es.len() - i,
{
    if i < 0 || i >= es.len() {
        None
    } else if comment_continues(t, es, declared, required, i) {
        Some(i)
    } else {
        continuation(t, es, declared, required, i + 1)
    }
}

fn find_continuation(cx: LowerCtx, es: &Vec<usize>, declared: &Vec<bool>, required: &Vec<bool>) -> (r: Option<usize>)
    requires
        in_tree(cx.t, es@),
    ensures
        r is Some == continuation(cx.t, es@, declared@, required@, 0) is Some,
        r matches Some(i) ==> continuation(cx.t, es@, declared@, required@, 0) == Some(i as int) && i < es@.len(),
{
    let mut i: usize = 0;
    while i < es.len()
        invariant
            in_tree(cx.t, es@),
            i <= es@.len(),
            continuation(cx.t, es@, declared@, required@, i as int) == continuation(cx.t, es@, declared@, required@, 0),
        decreases es@.len() - i,
    {
        if cx.t.token_is(es[i], SyntaxKind::Comment) {
            let mut j: usize = i;
            while j > 0 && cx.t.token_is(es[j - 1], SyntaxKind::Whitespace)
                invariant
                    in_tree(cx.t, es@),
                    j <= i < es@.len(),
                    argument_before(cx.t, es@, declared@, j as int) == argument_before(
                        cx.t,
                        es@,
                        declared@,
                        i as int,
                    ),
                decreases j,
            {
                j = j - 1;
            }
            let trails = j > 0 && !cx.t.is_token(es[j - 1]) && flag(declared, j - 1);
            let (newlines, next) = cx.consume_widened_gap_slice(es, i + 1);
            if trails && newlines > 0 && flag(required, next) {
                return Some(i);
            }
        }
        i = i + 1;
    }
    None
}

/// Whether a stretch of the list has an element whose layout has been turned off.
pub open spec fn any_off(cx: LowerCtx, es: Seq<usize>, lo: int, hi: int) -> bool {
    exists|i: int| lo <= i < hi && cx.off(#[trigger] es[i] as int)
}

/// The elements from `i` on with their flags, without the white space before a declared
/// argument. White space behind a comment stays. `prev` holds behind a comment.
pub open spec fn without_argument_gaps(cx: LowerCtx, es: Seq<usize>, flags: Seq<bool>, i: int, prev: bool) -> (
    Seq<usize>,
    Seq<bool>,
)
    decreases es.len() - i,
{
    if i < 0 || i >= es.len() {
        (Seq::empty(), Seq::empty())
    } else {
        proof {
            lemma_gap_end(cx.t, es, i);
        }
        let e = es[i] as int;
        if cx.t.gap(e) {
            let end = gap_end(cx.t, es, i);
            let (rest, rest_flags) = without_argument_gaps(cx, es, flags, end, prev);
            if flag_at(flags, end) && !prev && !any_off(cx, es, i, end) {
                (rest, rest_flags)
            } else {
                (es.subrange(i, end) + rest, flags.subrange(i, end) + rest_flags)
            }
        } else {
            let (rest, rest_flags) = without_argument_gaps(
                cx,
                es,
                flags,
                i + 1,
                cx.t.tok_is(e, SyntaxKind::Comment),
            );
            (seq![es[i]] + rest, seq![flags[i]] + rest_flags)
        }
    }
}

/// The elements from `i` on, the declared arguments indented. What stands before them is in
/// `generic`.
pub open spec fn commented_parts(
    cx: LowerCtx,
    es: Seq<usize>,
    flags: Seq<bool>,
    i: int,
    generic: Seq<usize>,
    fuel: nat,
) -> Seq<Layout>
    decreases fuel, 83int, es.len() - i,
{
    if i < 0 || i >= es.len() {
        stream(cx, generic, 0, fuel)
    } else if flag_at(flags, i) {
        stream(cx, generic, 0, fuel) + seq![indent(node(cx, es[i] as int, fuel))] + commented_parts(
            cx,
            es,
            flags,
            i + 1,
            Seq::empty(),
            fuel,
        )
    } else {
        commented_parts(cx, es, flags, i + 1, generic.push(es[i]), fuel)
    }
}

/// A stretch of a header with comments.
pub open spec fn commented_stream(cx: LowerCtx, es: Seq<usize>, flags: Seq<bool>, prev: bool, fuel: nat) -> Layout
    decreases fuel, 84int, 0int,
{
    if cx.in_doc_region {
        streamed(cx, es, fuel)
    } else {
        let (kept, kept_flags) = without_argument_gaps(cx, es, flags, 0, prev);
        concat(commented_parts(cx, kept, kept_flags, 0, Seq::empty(), fuel))
    }
}

fn any_suppressed(cx: LowerCtx, es: &Vec<usize>, lo: usize, hi: usize) -> (r: bool)
    requires
        in_tree(cx.t, es@),
        lo <= hi <= es@.len(),
    ensures
        r == any_off(cx, es@, lo as int, hi as int),
{
    let mut i: usize = lo;
    while i < hi
        invariant
            in_tree(cx.t, es@),
            lo <= i <= hi <= es@.len(),
            forall|j: int| lo <= j < i ==> !cx.off(#[trigger] es@[j] as int),
        decreases hi - i,
    {
        if cx.is_suppressed(es[i]) {
            return true;
        }
        i = i + 1;
    }
    false
}

fn drop_argument_gaps(cx: LowerCtx, es: &Vec<usize>, flags: &Vec<bool>, prev: bool, Ghost(fuel): Ghost<nat>) -> (r: (
    Vec<usize>,
    Vec<bool>,
))
    requires
        fits(cx.t, es@, fuel),
        flags@.len() == es@.len(),
    ensures
        (r.0@, r.1@) == without_argument_gaps(cx, es@, flags@, 0, prev),
        fits(cx.t, r.0@, fuel),
        r.1@.len() == r.0@.len(),
{
    let mut out: Vec<usize> = Vec::new();
    let mut out_flags: Vec<bool> = Vec::new();
    let mut after = prev;
    let mut i: usize = 0;
    let ghost all = without_argument_gaps(cx, es@, flags@, 0, prev);
    assert(out@ + all.0 =~= all.0);
    assert(out_flags@ + all.1 =~= all.1);
    while i < es.len()
        invariant
            fits(cx.t, es@, fuel),
            fits(cx.t, out@, fuel),
            flags@.len() == es@.len(),
            out_flags@.len() == out@.len(),
            i <= es@.len(),
            all == without_argument_gaps(cx, es@, flags@, 0, prev),
            out@ + without_argument_gaps(cx, es@, flags@, i as int, after).0 == all.0,
            out_flags@ + without_argument_gaps(cx, es@, flags@, i as int, after).1 == all.1,
        decreases es@.len() - i,
    {
        let e: usize = es[i];
        assert(room(cx.t, es@[i as int] as int, fuel));
        let ghost was = out@;
        let ghost was_flags = out_flags@;
        if cx.t.is_gap(e) {
            let (_, end) = cx.consume_widened_gap_slice(es, i);
            let ghost rest = without_argument_gaps(cx, es@, flags@, end as int, after);
            if !(flag(flags, end) && !after && !any_suppressed(cx, es, i, end)) {
                let mut j: usize = i;
                while j < end
                    invariant
                        fits(cx.t, es@, fuel),
                        fits(cx.t, out@, fuel),
                        flags@.len() == es@.len(),
                        out_flags@.len() == out@.len(),
                        i <= j <= end <= es@.len(),
                        out@ == was + es@.subrange(i as int, j as int),
                        out_flags@ == was_flags + flags@.subrange(i as int, j as int),
                    decreases end - j,
                {
                    assert(room(cx.t, es@[j as int] as int, fuel));
                    out.push(es[j]);
                    out_flags.push(flags[j]);
                    assert(out@ =~= was + es@.subrange(i as int, j + 1));
                    assert(out_flags@ =~= was_flags + flags@.subrange(i as int, j + 1));
                    j = j + 1;
                }
                assert(out@ + rest.0 =~= was + (es@.subrange(i as int, end as int) + rest.0));
                assert(out_flags@ + rest.1 =~= was_flags + (flags@.subrange(i as int, end as int) + rest.1));
            }
            i = end;
        } else {
            after = cx.t.token_is(e, SyntaxKind::Comment);
            out.push(e);
            out_flags.push(flags[i]);
            proof {
                let rest = without_argument_gaps(cx, es@, flags@, i + 1, after);
                assert(out@ + rest.0 =~= was + (seq![e] + rest.0));
                assert(out_flags@ + rest.1 =~= was_flags + (seq![flags@[i as int]] + rest.1));
            }
            i = i + 1;
        }
    }
    assert(out@ + Seq::<usize>::empty() =~= out@);
    assert(out_flags@ + Seq::<bool>::empty() =~= out_flags@);
    (out, out_flags)
}

fn lower_commented_header_stream(
    cx: LowerCtx,
    es: &Vec<usize>,
    flags: &Vec<bool>,
    prev: bool,
    Ghost(fuel): Ghost<nat>,
) -> (r: Ir)
    requires
        cx.ok(),
        fits(cx.t, es@, fuel),
        flags@.len() == es@.len(),
    ensures
        r@ == commented_stream(cx, es@, flags@, prev, fuel),
    decreases fuel, 84int, 0int,
{
    if cx.in_doc_region {
        return lower_stream(cx, es, Ghost(fuel));
    }
    let (kept, kept_flags) = drop_argument_gaps(cx, es, flags, prev, Ghost(fuel));
    let mut out = IrList::new();
    let mut generic: Vec<usize> = Vec::new();
    assert(generic@ =~= Seq::<usize>::empty());
    let ghost all = commented_parts(cx, kept@, kept_flags@, 0, Seq::empty(), fuel);
    assert(out@ + all =~= all);
    let mut i: usize = 0;
    while i < kept.len()
        invariant
            cx.ok(),
            fits(cx.t, kept@, fuel),
            fits(cx.t, generic@, fuel),
            kept_flags@.len() == kept@.len(),
            i <= kept@.len(),
            out@ + commented_parts(cx, kept@, kept_flags@, i as int, generic@, fuel) == all,
        decreases kept@.len() - i,
    {
        assert(room(cx.t, kept@[i as int] as int, fuel));
        if kept_flags[i] {
            let ghost was = out@;
            let lowered = lower_element_stream(cx, &generic, Ghost(fuel));
            let ghost before = lowered@;
            out.extend(lowered);
            let ir = Ir::indent(lower_node(cx, kept[i], Ghost(fuel)));
            out.push(ir);
            generic = Vec::new();
            proof {
                assert(generic@ =~= Seq::<usize>::empty());
                let rest = commented_parts(cx, kept@, kept_flags@, i + 1, Seq::empty(), fuel);
                assert(out@ + rest =~= was + (before + seq![ir@] + rest));
            }
        } else {
            generic.push(kept[i]);
        }
        i = i + 1;
    }
    out.extend(lower_element_stream(cx, &generic, Ghost(fuel)));
    Ir::concat(out)
}

/// A header with comments and the elements behind it. An argument that stands on a line behind a
/// comment is indented.
pub open spec fn commented_begin(cx: LowerCtx, args: Seq<ArgSpec>, es: Seq<usize>, fuel: nat) -> (Layout, int)
    decreases fuel, 85int, 0int,
{
    let t = cx.t;
    let declared = declared_before(t, args, es, es.len() as int).1;
    let required = required_before(t, args, es, es.len() as int);
    let cut = header_end(t, es, declared, 0);
    let header = es.subrange(0, cut);
    let l = match continuation(t, header, declared, required, 0) {
        Some(i) => concat2(
            commented_stream(cx, header.subrange(0, i + 1), declared.subrange(0, i + 1), false, fuel),
            indent(commented_stream(cx, header.subrange(i + 1, cut), declared.subrange(i + 1, cut), true, fuel)),
        ),
        None => commented_stream(cx, header, declared.subrange(0, cut), false, fuel),
    };
    (l, cut)
}

fn flags_part(flags: &Vec<bool>, lo: usize, hi: usize) -> (r: Vec<bool>)
    requires
        lo <= hi <= flags@.len(),
    ensures
        r@ == flags@.subrange(lo as int, hi as int),
{
    let mut out: Vec<bool> = Vec::new();
    let mut i: usize = lo;
    while i < hi
        invariant
            lo <= i <= hi <= flags@.len(),
            out@ == flags@.subrange(lo as int, i as int),
        decreases hi - i,
    {
        out.push(flags[i]);
        assert(flags@.subrange(lo as int, i + 1) =~= flags@.subrange(lo as int, i as int).push(flags@[i as int]));
        i = i + 1;
    }
    out
}

fn lower_commented_begin(cx: LowerCtx, args: &Vec<ArgSpec>, es: &Vec<usize>, Ghost(fuel): Ghost<nat>) -> (r: (Ir, usize))
    requires
        cx.ok(),
        fits(cx.t, es@, fuel),
    ensures
        (r.0@, r.1 as int) == commented_begin(cx, args@, es@, fuel),
        r.1 <= es@.len(),
    decreases fuel, 85int, 0int,
{
    let (declared, required) = declared_flags(cx, args, es);
    let cut: usize = find_header_end(cx, es, &declared);
    let header = part(es, 0, cut);
    let ir = match find_continuation(cx, &header, &declared, &required) {
        Some(i) => {
            let prefix = lower_commented_header_stream(
                cx,
                &part(&header, 0, i + 1),
                &flags_part(&declared, 0, i + 1),
                false,
                Ghost(fuel),
            );
            let rest = lower_commented_header_stream(
                cx,
                &part(&header, i + 1, cut),
                &flags_part(&declared, i + 1, cut),
                true,
                Ghost(fuel),
            );
            Ir::concat2(prefix, Ir::indent(rest))
        },
        None => lower_commented_header_stream(cx, &header, &flags_part(&declared, 0, cut), false, Ghost(fuel)),
    };
    (ir, cut)
}

// ---- a whole header ------------------------------------------------------------------------

/// The declared arguments of the environment that a header opens.
pub open spec fn args_of(cx: LowerCtx, b: int) -> Seq<ArgSpec> {
    match cx.env(b) {
        Some(sig) => sig.args@,
        None => Seq::empty(),
    }
}

/// Whether the header holds a margin or a guard.
pub open spec fn header_margined(cx: LowerCtx, es: Seq<usize>) -> bool {
    (!cx.in_doc_region && any_tok(cx.t, es, SyntaxKind::DocMargin)) || any_tok(cx.t, es, SyntaxKind::Guard)
}

/// The header of an environment, and what the parser has put in it that belongs to the body.
pub open spec fn begin_parts(cx: LowerCtx, b: int, fuel: nat) -> (Layout, Seq<usize>)
    decreases fuel, 52int, 0int,
{
    let es = cx.t.kids(b);
    let args = args_of(cx, b);
    if fuel == 0 {
        (Layout::Nil, Seq::empty())
    } else if header_margined(cx, es) {
        (node(cx, b, fuel), Seq::empty())
    } else {
        let less = (fuel - 1) as nat;
        let (l, cut) = if any_tok(cx.t, es, SyntaxKind::Comment) && args.len() > 0 {
            commented_begin(cx, args, es, less)
        } else {
            let aligned = match cx.env(b) {
                Some(sig) => sig.align,
                None => false,
            };
            let (head, tail) = header_parts(
                cx,
                args,
                aligned,
                es,
                0,
                Matched { slot: 0, matches: true },
                Seq::empty(),
                less,
            );
            (concat(head), tail)
        };
        (l, es.subrange(cut, es.len() as int))
    }
}

pub fn lower_begin(cx: LowerCtx, b: usize, Ghost(fuel): Ghost<nat>) -> (r: (Ir, Vec<usize>))
    requires
        cx.ok(),
        room(cx.t, b as int, fuel),
    ensures
        (r.0@, r.1@) == begin_parts(cx, b as int, fuel),
        fits(cx.t, r.1@, fuel),
    decreases fuel, 52int, 0int,
{
    let ghost less = (fuel - 1) as nat;
    let es = cx.children(b);
    if (!cx.in_doc_region && any_token(cx, &es, SyntaxKind::DocMargin)) || any_token(cx, &es, SyntaxKind::Guard) {
        let none: Vec<usize> = Vec::new();
        assert(none@ =~= Seq::<usize>::empty());
        return (lower_node(cx, b, Ghost(fuel)), none);
    }
    let empty: Vec<ArgSpec> = Vec::new();
    assert(empty@ =~= Seq::<ArgSpec>::empty());
    let sig = cx.env_sig(b);
    let args = match sig {
        Some(sig) => &sig.args,
        None => &empty,
    };
    let (ir, cut) = if any_token(cx, &es, SyntaxKind::Comment) && args.len() > 0 {
        lower_commented_begin(cx, args, &es, Ghost(less))
    } else {
        let aligned = match sig {
            Some(sig) => sig.align,
            None => false,
        };
        lower_header(cx, args, aligned, &es, Ghost(less))
    };
    (ir, part(&es, cut, es.len()))
}

} // verus!

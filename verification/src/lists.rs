//! Lists.

use vstd::prelude::*;

use crate::commands::{comment_lines, lower_comment_lines};
use crate::context::{fits, room, LowerCtx};
use crate::environments::{env_split, environment, lower_environment, split_environment};
use crate::flatten::{flatten_inline_prose, prose_flat};
use crate::gap::{peel_back, peel_front, peel_leading_break, peel_trailing_break};
use crate::ir::{align, concat, concat2, concat3, flat_text, indent, interleave, space, verbatim, Ir, IrList, Layout};
use crate::lines::{join_lines, joined};
use crate::lower::{lower_node, lower_prose_stream, node, prose_stream};
use crate::math::{clamped, clamped_sum};
use crate::prose::{reflow_elements, reflowed, source_of, ReflowKind};
use crate::settings::ItemIndent;
use crate::syntax::{collapsible, is_collapsible_trivia, SyntaxKind, Tree};

verus! {

// ---- flat bodies ---------------------------------------------------------------------------
//
// The body of a list is a row of elements, with `None` for an empty line between them.

/// Whether `fuel` is enough for each element of a row.
pub open spec fn row_fits(t: &Tree, flat: Seq<Option<usize>>, fuel: nat) -> bool {
    forall|i: int| 0 <= i < flat.len() ==> (#[trigger] flat[i] matches Some(e) ==> room(t, e as int, fuel))
}

/// Elements without an empty line between them.
pub open spec fn row_of(es: Seq<usize>) -> Seq<Option<usize>> {
    Seq::new(es.len(), |i: int| Some(es[i]))
}

/// A body as far as it has been flattened.
#[verifier::ext_equal]
pub struct FlatBody {
    pub out: Seq<Option<usize>>,
    pub started: bool,
    /// The white space that is not in `out` yet, and the line breaks in it.
    pub run: Seq<usize>,
    pub newlines: int,
}

impl FlatBody {
    /// What stands before the next element.
    pub open spec fn with_run(self) -> Seq<Option<usize>> {
        if !self.started {
            self.out
        } else if self.newlines >= 2 {
            self.out.push(None)
        } else {
            self.out + row_of(self.run)
        }
    }
}

/// The elements before `i` other than `dropped`, as a row.
pub open spec fn row_without(es: Seq<usize>, dropped: Option<usize>, i: int) -> Seq<Option<usize>>
    decreases i,
{
    if i <= 0 || i > es.len() {
        Seq::empty()
    } else if dropped == Some(es[i - 1]) {
        row_without(es, dropped, i - 1)
    } else {
        row_without(es, dropped, i - 1).push(Some(es[i - 1]))
    }
}

/// The first `i` elements of a body, with the paragraphs opened and the lifted comment left out.
pub open spec fn flat_body(t: &Tree, es: Seq<usize>, lifted: Option<usize>, i: int) -> FlatBody
    decreases i,
{
    if i <= 0 || i > es.len() {
        FlatBody { out: Seq::empty(), started: false, run: Seq::empty(), newlines: 0 }
    } else {
        let s = flat_body(t, es, lifted, i - 1);
        let e = es[i - 1];
        if t.gap(e as int) {
            FlatBody {
                run: s.run.push(e),
                newlines: s.newlines + if t.k(e as int) == SyntaxKind::Newline {
                    1int
                } else {
                    0
                },
                ..s
            }
        } else if t.tok(e as int) && lifted == Some(e) {
            s
        } else {
            let opened = if t.node_is(e as int, SyntaxKind::Paragraph) {
                row_without(t.kids(e as int), lifted, t.kids(e as int).len() as int)
            } else {
                seq![Some(e)]
            };
            FlatBody { out: s.with_run() + opened, started: true, run: Seq::empty(), newlines: 0 }
        }
    }
}

pub open spec fn list_row(t: &Tree, es: Seq<usize>, lifted: Option<usize>) -> Seq<Option<usize>> {
    flat_body(t, es, lifted, es.len() as int).out
}

fn push_row(
    out: &mut Vec<Option<usize>>,
    es: &Vec<usize>,
    dropped: Option<usize>,
    Ghost(t): Ghost<&Tree>,
    Ghost(fuel): Ghost<nat>,
)
    requires
        row_fits(t, old(out)@, fuel),
        fits(t, es@, fuel),
    ensures
        final(out)@ == old(out)@ + row_without(es@, dropped, es@.len() as int),
        row_fits(t, final(out)@, fuel),
{
    let ghost before = out@;
    let mut i: usize = 0;
    assert(before + row_without(es@, dropped, 0) =~= before);
    while i < es.len()
        invariant
            i <= es@.len(),
            row_fits(t, out@, fuel),
            fits(t, es@, fuel),
            out@ == before + row_without(es@, dropped, i as int),
        decreases es@.len() - i,
    {
        assert(room(t, es@[i as int] as int, fuel));
        let keep = match dropped {
            Some(d) => d != es[i],
            None => true,
        };
        if keep {
            out.push(Some(es[i]));
            assert(out@ =~= before + row_without(es@, dropped, i + 1));
        }
        i = i + 1;
    }
}

proof fn lemma_row_without_none(es: Seq<usize>, i: int)
    requires
        0 <= i <= es.len(),
    ensures
        row_without(es, None, i) == row_of(es.subrange(0, i)),
    decreases i,
{
    if i > 0 {
        lemma_row_without_none(es, i - 1);
        assert(row_of(es.subrange(0, i)) =~= row_of(es.subrange(0, i - 1)).push(Some(es[i - 1])));
    } else {
        assert(row_of(es.subrange(0, 0)) =~= Seq::<Option<usize>>::empty());
    }
}

pub fn flatten_list_body(cx: LowerCtx, es: &Vec<usize>, lifted: Option<usize>, Ghost(fuel): Ghost<nat>) -> (r: Vec<
    Option<usize>,
>)
    requires
        cx.ok(),
        fits(cx.t, es@, fuel),
    ensures
        r@ == list_row(cx.t, es@, lifted),
        row_fits(cx.t, r@, fuel),
{
    let mut out: Vec<Option<usize>> = Vec::new();
    let mut started = false;
    let mut run: Vec<usize> = Vec::new();
    let mut newlines: usize = 0;
    let mut i: usize = 0;
    assert(out@ =~= Seq::<Option<usize>>::empty());
    assert(run@ =~= Seq::<usize>::empty());
    while i < es.len()
        invariant
            cx.ok(),
            fits(cx.t, es@, fuel),
            row_fits(cx.t, out@, fuel),
            fits(cx.t, run@, fuel),
            i <= es@.len(),
            newlines <= i,
            flat_body(cx.t, es@, lifted, i as int) == (FlatBody { out: out@, started, run: run@, newlines: newlines as int }),
        decreases es@.len() - i,
    {
        let e: usize = es[i];
        assert(room(cx.t, es@[i as int] as int, fuel));
        let is_lifted = match lifted {
            Some(c) => cx.t.is_token(e) && c == e,
            None => false,
        };
        if cx.t.is_gap(e) {
            if cx.t.kind(e) == SyntaxKind::Newline {
                newlines = newlines + 1;
            }
            run.push(e);
        } else if !is_lifted {
            if started {
                if newlines >= 2 {
                    out.push(None);
                } else {
                    push_row(&mut out, &run, None, Ghost(cx.t), Ghost(fuel));
                    proof {
                        lemma_row_without_none(run@, run@.len() as int);
                        assert(run@.subrange(0, run@.len() as int) =~= run@);
                    }
                }
            }
            run = Vec::new();
            assert(run@ =~= Seq::<usize>::empty());
            newlines = 0;
            let ghost before = out@;
            if cx.t.is_node(e, SyntaxKind::Paragraph) {
                let inner = cx.children(e);
                push_row(&mut out, &inner, lifted, Ghost(cx.t), Ghost(fuel));
            } else {
                out.push(Some(e));
                assert(out@ =~= before + seq![Some(e)]);
            }
            started = true;
        }
        i = i + 1;
    }
    out
}

// ---- overlays behind a marker --------------------------------------------------------------

/// Where the white space from `i` on ends.
pub open spec fn row_gap_end(t: &Tree, flat: Seq<Option<usize>>, i: int) -> int
    decreases flat.len() - i,
{
    if 0 <= i < flat.len() && flat[i] is Some && collapsible(t.k(flat[i]->0 as int)) {
        row_gap_end(t, flat, i + 1)
    } else {
        i
    }
}

/// A text with white space behind it: one space, however much there was.
pub open spec fn with_blank(text: Seq<char>) -> Seq<char> {
    if text.len() > 0 && text.last() == ' ' {
        text
    } else {
        text.push(' ')
    }
}

/// The text up to the first element that ends in `>`, behind `text`, and where it ends. There is
/// none past a comment or an empty line.
pub open spec fn angle_text(t: &Tree, flat: Seq<Option<usize>>, i: int, text: Seq<char>) -> Option<(Seq<char>, int)>
    decreases flat.len() - i,
{
    if i < 0 || i >= flat.len() || flat[i] is None {
        None
    } else {
        let e = flat[i]->0 as int;
        if t.k(e) == SyntaxKind::Comment {
            None
        } else if collapsible(t.k(e)) {
            angle_text(t, flat, i + 1, with_blank(text))
        } else if t.src(e).len() > 0 && t.src(e).last() == '>' {
            Some((text + t.src(e), i + 1))
        } else {
            angle_text(t, flat, i + 1, text + t.src(e))
        }
    }
}

/// An overlay in angle brackets at `i`, and where it ends.
pub open spec fn angle(t: &Tree, flat: Seq<Option<usize>>, i: int) -> Option<(Seq<char>, int)> {
    let j = row_gap_end(t, flat, i);
    if 0 <= j < flat.len() && flat[j] is Some && t.src(flat[j]->0 as int).len() > 0 && t.src(flat[j]->0 as int)[0] == '<' {
        angle_text(t, flat, j, Seq::empty())
    } else {
        None
    }
}

/// The text up to the bracket that closes `depth` brackets, behind `text`, and where it ends.
pub open spec fn bracket_text(t: &Tree, flat: Seq<Option<usize>>, i: int, depth: int, text: Seq<char>) -> Option<
    (Seq<char>, int),
>
    decreases flat.len() - i,
{
    if i < 0 || i >= flat.len() || flat[i] is None {
        None
    } else {
        let e = flat[i]->0 as int;
        let now = if t.k(e) == SyntaxKind::LBracket {
            depth + 1
        } else if t.k(e) == SyntaxKind::RBracket {
            depth - 1
        } else {
            depth
        };
        let longer = if collapsible(t.k(e)) {
            with_blank(text)
        } else {
            text + t.src(e)
        };
        if now < 0 || t.k(e) == SyntaxKind::Comment {
            None
        } else if now == 0 {
            Some((longer, i + 1))
        } else {
            bracket_text(t, flat, i + 1, now, longer)
        }
    }
}

/// A label in square brackets at `i`, and where it ends.
pub open spec fn bracket(t: &Tree, flat: Seq<Option<usize>>, i: int) -> Option<(Seq<char>, int)> {
    let j = row_gap_end(t, flat, i);
    if 0 <= j < flat.len() && flat[j] is Some && t.k(flat[j]->0 as int) == SyntaxKind::LBracket {
        bracket_text(t, flat, j, 0, Seq::empty())
    } else {
        None
    }
}

/// What belongs to a marker that ends at `i`: an overlay, and behind it a label with an overlay
/// of its own.
pub open spec fn overlay(t: &Tree, flat: Seq<Option<usize>>, i: int) -> Option<(Seq<char>, int)> {
    match angle(t, flat, i) {
        None => None,
        Some((text, end)) => match bracket(t, flat, end) {
            None => Some((text, end)),
            Some((label, label_end)) => match angle(t, flat, label_end) {
                None => Some((text + label, label_end)),
                Some((second, second_end)) => Some((text + label + second, second_end)),
            },
        },
    }
}

fn push_blank(text: &mut String)
    ensures
        final(text)@ == with_blank(old(text)@),
{
    proof {
        reveal_strlit(" ");
        assert(" "@ =~= seq![' ']);
    }
    let ghost before = text@;
    let n: usize = text.as_str().unicode_len();
    if n == 0 || text.as_str().get_char(n - 1) != ' ' {
        text.append(" ");
        assert(text@ =~= before.push(' '));
    }
}

pub fn skip_flat_trivia(cx: LowerCtx, flat: &Vec<Option<usize>>, start: usize, Ghost(fuel): Ghost<nat>) -> (r: usize)
    requires
        row_fits(cx.t, flat@, fuel),
        start <= flat@.len(),
    ensures
        r == row_gap_end(cx.t, flat@, start as int),
        start <= r <= flat@.len(),
{
    let mut i: usize = start;
    while i < flat.len()
        invariant
            row_fits(cx.t, flat@, fuel),
            start <= i <= flat@.len(),
            row_gap_end(cx.t, flat@, i as int) == row_gap_end(cx.t, flat@, start as int),
        decreases flat@.len() - i,
    {
        match flat[i] {
            Some(e) => {
                assert(flat@[i as int] == Some(e));
                if !is_collapsible_trivia(cx.t.kind(e)) {
                    return i;
                }
            },
            None => {
                return i;
            },
        }
        i = i + 1;
    }
    i
}

pub fn angle_suffix(cx: LowerCtx, flat: &Vec<Option<usize>>, start: usize, Ghost(fuel): Ghost<nat>) -> (r: Option<(String, usize)>)
    requires
        cx.ok(),
        row_fits(cx.t, flat@, fuel),
        start <= flat@.len(),
    ensures
        r is Some == angle(cx.t, flat@, start as int) is Some,
        r matches Some((text, end)) ==> angle(cx.t, flat@, start as int) == Some((text@, end as int)) && start < end
            <= flat@.len(),
{
    let first: usize = skip_flat_trivia(cx, flat, start, Ghost(fuel));
    if first >= flat.len() {
        return None;
    }
    match flat[first] {
        Some(e) => {
            assert(flat@[first as int] == Some(e));
            let text = source_of(cx, e);
            let s = text.as_str();
            if s.unicode_len() == 0 || s.get_char(0) != '<' {
                return None;
            }
        },
        None => {
            return None;
        },
    }
    let ghost all = angle_text(cx.t, flat@, first as int, Seq::empty());
    let mut suffix = String::new();
    let mut i: usize = first;
    assert(suffix@ =~= Seq::<char>::empty());
    while i < flat.len()
        invariant
            cx.ok(),
            row_fits(cx.t, flat@, fuel),
            start <= first <= i <= flat@.len(),
            angle(cx.t, flat@, start as int) == all,
            angle_text(cx.t, flat@, i as int, suffix@) == all,
        decreases flat@.len() - i,
    {
        match flat[i] {
            Some(e) => {
                assert(flat@[i as int] == Some(e));
                let kind = cx.t.kind(e);
                if kind == SyntaxKind::Comment {
                    return None;
                }
                if is_collapsible_trivia(kind) {
                    push_blank(&mut suffix);
                } else {
                    let text = source_of(cx, e);
                    suffix.append(text.as_str());
                    let s = text.as_str();
                    let n: usize = s.unicode_len();
                    if n > 0 && s.get_char(n - 1) == '>' {
                        return Some((suffix, i + 1));
                    }
                }
            },
            None => {
                return None;
            },
        }
        i = i + 1;
    }
    None
}

pub fn bracket_suffix(cx: LowerCtx, flat: &Vec<Option<usize>>, start: usize, Ghost(fuel): Ghost<nat>) -> (r: Option<
    (String, usize),
>)
    requires
        cx.ok(),
        row_fits(cx.t, flat@, fuel),
        start <= flat@.len(),
    ensures
        r is Some == bracket(cx.t, flat@, start as int) is Some,
        r matches Some((text, end)) ==> bracket(cx.t, flat@, start as int) == Some((text@, end as int)) && start < end
            <= flat@.len(),
{
    let first: usize = skip_flat_trivia(cx, flat, start, Ghost(fuel));
    if first >= flat.len() {
        return None;
    }
    match flat[first] {
        Some(e) => {
            assert(flat@[first as int] == Some(e));
            if cx.t.kind(e) != SyntaxKind::LBracket {
                return None;
            }
        },
        None => {
            return None;
        },
    }
    let ghost all = bracket_text(cx.t, flat@, first as int, 0, Seq::empty());
    let mut suffix = String::new();
    let mut depth: usize = 0;
    let mut i: usize = first;
    assert(suffix@ =~= Seq::<char>::empty());
    while i < flat.len()
        invariant
            cx.ok(),
            row_fits(cx.t, flat@, fuel),
            start <= first <= i <= flat@.len(),
            depth <= i,
            bracket(cx.t, flat@, start as int) == all,
            bracket_text(cx.t, flat@, i as int, depth as int, suffix@) == all,
        decreases flat@.len() - i,
    {
        match flat[i] {
            Some(e) => {
                assert(flat@[i as int] == Some(e));
                let kind = cx.t.kind(e);
                if kind == SyntaxKind::LBracket {
                    depth = depth + 1;
                } else if kind == SyntaxKind::RBracket {
                    if depth == 0 {
                        return None;
                    }
                    depth = depth - 1;
                } else if kind == SyntaxKind::Comment {
                    return None;
                }
                if is_collapsible_trivia(kind) {
                    push_blank(&mut suffix);
                } else {
                    let text = source_of(cx, e);
                    suffix.append(text.as_str());
                }
                if depth == 0 {
                    return Some((suffix, i + 1));
                }
            },
            None => {
                return None;
            },
        }
        i = i + 1;
    }
    None
}

pub fn item_overlay_marker_suffix(cx: LowerCtx, flat: &Vec<Option<usize>>, start: usize, Ghost(fuel): Ghost<nat>) -> (r:
    Option<(String, usize)>)
    requires
        cx.ok(),
        row_fits(cx.t, flat@, fuel),
        start <= flat@.len(),
    ensures
        r is Some == overlay(cx.t, flat@, start as int) is Some,
        r matches Some((text, end)) ==> overlay(cx.t, flat@, start as int) == Some((text@, end as int)) && start < end
            <= flat@.len(),
{
    match angle_suffix(cx, flat, start, Ghost(fuel)) {
        None => None,
        Some((mut suffix, end)) => match bracket_suffix(cx, flat, end, Ghost(fuel)) {
            None => Some((suffix, end)),
            Some((label, label_end)) => {
                suffix.append(label.as_str());
                match angle_suffix(cx, flat, label_end, Ghost(fuel)) {
                    None => Some((suffix, label_end)),
                    Some((second, second_end)) => {
                        suffix.append(second.as_str());
                        Some((suffix, second_end))
                    },
                }
            },
        },
    }
}

// ---- markers -------------------------------------------------------------------------------

/// The command that starts an item, split into its marker and what belongs to the item.
#[verifier::ext_equal]
pub struct Marker {
    /// The comments that stand before it.
    pub docs: Seq<Layout>,
    pub parts: Seq<Layout>,
    pub hang: int,
    pub content: Seq<usize>,
}

/// The first `i` children of an item command: comments and the command with its label are of
/// the marker, and from the first other child on all belongs to the item.
pub open spec fn marker_of(cx: LowerCtx, es: Seq<usize>, i: int, fuel: nat) -> Marker
    decreases fuel, 63int, i,
{
    if i <= 0 || i > es.len() {
        Marker { docs: Seq::empty(), parts: Seq::empty(), hang: 1, content: Seq::empty() }
    } else {
        let s = marker_of(cx, es, i - 1, fuel);
        let t = cx.t;
        let e = es[i - 1] as int;
        if s.content.len() > 0 {
            Marker { content: s.content.push(es[i - 1]), ..s }
        } else if t.node_is(e, SyntaxKind::DocComment) {
            Marker { docs: s.docs + comment_lines(t, t.kids(e), t.kids(e).len() as int), ..s }
        } else if t.tok_is(e, SyntaxKind::ControlWord) {
            Marker { hang: clamped(s.hang + t.txt(e).len()), parts: s.parts.push(verbatim(t.txt(e))), ..s }
        } else if t.gap(e) {
            s
        } else if t.node_is(e, SyntaxKind::Optional) {
            Marker { parts: s.parts.push(node(cx, e, fuel)), ..s }
        } else {
            Marker { content: s.content.push(es[i - 1]), ..s }
        }
    }
}

/// A marker as it is written.
pub struct ItemMarker {
    pub docs: IrList,
    pub marker: String,
    pub hang: usize,
    pub content: Vec<usize>,
}

/// What the marker of an item command is.
pub open spec fn item_marker(cx: LowerCtx, n: int, fuel: nat) -> Marker
    decreases fuel, 26int, 0int,
{
    if fuel == 0 {
        Marker { docs: Seq::empty(), parts: Seq::empty(), hang: 1, content: Seq::empty() }
    } else {
        marker_of(cx, cx.t.kids(n), cx.t.kids(n).len() as int, (fuel - 1) as nat)
    }
}

pub fn split_item_marker(cx: LowerCtx, n: usize, Ghost(fuel): Ghost<nat>) -> (r: ItemMarker)
    requires
        cx.ok(),
        room(cx.t, n as int, fuel),
    ensures
        ({
            let m = item_marker(cx, n as int, fuel);
            &&& r.docs@ == m.docs
            &&& r.marker@ == flat_text(concat(m.parts))
            &&& r.hang == m.hang
            &&& r.content@ == m.content
        }),
        fits(cx.t, r.content@, fuel),
    decreases fuel, 26int, 0int,
{
    let ghost less = (fuel - 1) as nat;
    let es = cx.children(n);
    let mut docs = IrList::new();
    let mut parts = IrList::new();
    let mut content: Vec<usize> = Vec::new();
    let mut hang: usize = 1;
    let mut i: usize = 0;
    assert(content@ =~= Seq::<usize>::empty());
    while i < es.len()
        invariant
            cx.ok(),
            fuel > 0,
            less == fuel - 1,
            fits(cx.t, es@, less),
            fits(cx.t, es@, fuel),
            fits(cx.t, content@, fuel),
            i <= es@.len(),
            marker_of(cx, es@, i as int, less) == (Marker {
                docs: docs@,
                parts: parts@,
                hang: hang as int,
                content: content@,
            }),
        decreases es@.len() - i,
    {
        let e: usize = es[i];
        assert(room(cx.t, es@[i as int] as int, less));
        assert(room(cx.t, es@[i as int] as int, fuel));
        if content.len() > 0 {
            content.push(e);
        } else if cx.t.is_node(e, SyntaxKind::DocComment) {
            let inner = cx.children(e);
            docs.extend(lower_comment_lines(cx, &inner));
        } else if cx.t.token_is(e, SyntaxKind::ControlWord) {
            let text = cx.t.text(e);
            hang = clamped_sum(hang, text.unicode_len());
            parts.push(Ir::verbatim(text));
        } else if cx.t.is_gap(e) {
        } else if cx.t.is_node(e, SyntaxKind::Optional) {
            parts.push(lower_node(cx, e, Ghost(less)));
        } else {
            content.push(e);
        }
        i = i + 1;
    }
    let marker = Ir::concat(parts).print_flat();
    ItemMarker { docs, marker, hang, content }
}

// ---- items ---------------------------------------------------------------------------------

/// Whether the element starts an item.
pub open spec fn is_item(t: &Tree, e: int) -> bool {
    t.node_is(e, SyntaxKind::Command) && t.named(e, "item"@)
}

pub fn is_item_command(cx: LowerCtx, e: usize) -> (r: bool)
    requires
        e < cx.t.n(),
    ensures
        r == is_item(cx.t, e as int),
{
    cx.t.is_node(e, SyntaxKind::Command) && cx.t.is_named(e, "item")
}

/// Where the next item from `i` on starts.
pub open spec fn next_item(t: &Tree, flat: Seq<Option<usize>>, i: int) -> int
    decreases flat.len() - i,
{
    if i < 0 || i >= flat.len() {
        flat.len() as int
    } else if flat[i] is Some && is_item(t, flat[i]->0 as int) {
        i
    } else {
        next_item(t, flat, i + 1)
    }
}

fn find_next_item(cx: LowerCtx, flat: &Vec<Option<usize>>, start: usize, Ghost(fuel): Ghost<nat>) -> (r: usize)
    requires
        row_fits(cx.t, flat@, fuel),
        start <= flat@.len(),
    ensures
        r == next_item(cx.t, flat@, start as int),
        start <= r <= flat@.len(),
        r < flat@.len() ==> flat@[r as int] is Some,
{
    let mut i: usize = start;
    while i < flat.len()
        invariant
            row_fits(cx.t, flat@, fuel),
            start <= i <= flat@.len(),
            next_item(cx.t, flat@, i as int) == next_item(cx.t, flat@, start as int),
        decreases flat@.len() - i,
    {
        match flat[i] {
            Some(e) => {
                assert(flat@[i as int] == Some(e));
                if is_item_command(cx, e) {
                    return i;
                }
            },
            None => {},
        }
        i = i + 1;
    }
    i
}

/// A stretch of an item with the author's lines.
pub open spec fn kept_chunk(cx: LowerCtx, es: Seq<usize>, fuel: nat) -> Layout
    decreases fuel, 81int, 0int,
{
    peel_back(peel_front(concat(prose_stream(cx, prose_flat(cx, es, 0, false, Seq::empty(), fuel), 0, fuel))).1).1
}

fn lower_kept_chunk(cx: LowerCtx, es: &Vec<usize>, Ghost(fuel): Ghost<nat>) -> (r: Ir)
    requires
        cx.ok(),
        fits(cx.t, es@, fuel),
    ensures
        r@ == kept_chunk(cx, es@, fuel),
    decreases fuel, 81int, 0int,
{
    let flat = flatten_inline_prose(cx, es, false, Ghost(fuel));
    let ir = Ir::concat(lower_prose_stream(cx, &flat, Ghost(fuel)));
    let (_, rest) = peel_leading_break(&ir);
    let (_, solid) = peel_trailing_break(&rest);
    solid
}

/// One stretch of an item without an empty line in it.
pub open spec fn chunk(cx: LowerCtx, es: Seq<usize>, fuel: nat) -> Layout
    decreases fuel, 82int, 0int,
{
    if cx.wrapping() {
        reflowed(cx, es, ReflowKind::Prose, fuel).0
    } else {
        kept_chunk(cx, es, fuel)
    }
}

fn lower_chunk(cx: LowerCtx, es: &Vec<usize>, Ghost(fuel): Ghost<nat>) -> (r: Ir)
    requires
        cx.ok(),
        fits(cx.t, es@, fuel),
    ensures
        r@ == chunk(cx, es@, fuel),
    decreases fuel, 83int, 0int,
{
    if cx.wraps_prose() {
        reflow_elements(cx, es, ReflowKind::Prose, Ghost(fuel))
    } else {
        lower_kept_chunk(cx, es, Ghost(fuel))
    }
}

/// A list of one layout, and of none where it is empty.
pub open spec fn unless_nil(l: Layout) -> Seq<Layout> {
    if l is Nil {
        Seq::empty()
    } else {
        seq![l]
    }
}

/// The stretches of a row from `i` on, with `es` before them.
pub open spec fn chunks(cx: LowerCtx, row: Seq<Option<usize>>, i: int, es: Seq<usize>, fuel: nat) -> Seq<Layout>
    decreases fuel, 83int, row.len() - i,
{
    if i < 0 || i >= row.len() {
        unless_nil(chunk(cx, es, fuel))
    } else {
        match row[i] {
            Some(e) => chunks(cx, row, i + 1, es.push(e), fuel),
            None => unless_nil(chunk(cx, es, fuel)) + chunks(cx, row, i + 1, Seq::empty(), fuel),
        }
    }
}

/// What an item holds: its stretches with an empty line between them.
pub open spec fn item_chunks(cx: LowerCtx, row: Seq<Option<usize>>, es: Seq<usize>, fuel: nat) -> Layout
    decreases fuel, 84int, 0int,
{
    concat(interleave(Layout::EmptyLine, chunks(cx, row, 0, es, fuel)))
}

pub fn lower_item_chunks(
    cx: LowerCtx,
    row: &Vec<Option<usize>>,
    lo: usize,
    hi: usize,
    content: Vec<usize>,
    Ghost(fuel): Ghost<nat>,
) -> (r: Ir)
    requires
        cx.ok(),
        row_fits(cx.t, row@, fuel),
        fits(cx.t, content@, fuel),
        lo <= hi <= row@.len(),
    ensures
        r@ == item_chunks(cx, row@.subrange(lo as int, hi as int), content@, fuel),
    decreases fuel, 84int, 0int,
{
    let ghost part = row@.subrange(lo as int, hi as int);
    let ghost all = chunks(cx, part, 0, content@, fuel);
    let mut out = IrList::new();
    let mut es = content;
    let mut i: usize = lo;
    assert(out@ + all =~= all);
    while i < hi
        invariant
            cx.ok(),
            row_fits(cx.t, row@, fuel),
            fits(cx.t, es@, fuel),
            lo <= i <= hi <= row@.len(),
            part == row@.subrange(lo as int, hi as int),
            out@ + chunks(cx, part, i - lo, es@, fuel) == all,
        decreases hi - i,
    {
        assert(part[i - lo] == row@[i as int]);
        match row[i] {
            Some(e) => {
                assert(row@[i as int] == Some(e));
                es.push(e);
            },
            None => {
                let ghost before = out@;
                let ir = lower_chunk(cx, &es, Ghost(fuel));
                let ghost l = ir@;
                if !ir.is_nil() {
                    out.push(ir);
                }
                es = Vec::new();
                proof {
                    assert(es@ =~= Seq::<usize>::empty());
                    let rest = chunks(cx, part, i - lo + 1, Seq::empty(), fuel);
                    assert(out@ + rest =~= before + (unless_nil(l) + rest));
                }
            },
        }
        i = i + 1;
    }
    let ghost before = out@;
    let ir = lower_chunk(cx, &es, Ghost(fuel));
    let ghost l = ir@;
    if !ir.is_nil() {
        out.push(ir);
    }
    assert(out@ =~= before + unless_nil(l));
    Ir::join(Ir::EmptyLine, out)
}

/// How far the lines of an item are indented under its marker.
pub open spec fn item_width(cx: LowerCtx, hang: int) -> int {
    match cx.item_indent {
        ItemIndent::Hang => hang,
        ItemIndent::Indent => cx.indent_width as int,
        ItemIndent::Flush => 0,
    }
}

/// A marker with what the item holds.
pub open spec fn item_layout(cx: LowerCtx, docs: Seq<Layout>, marker: Seq<char>, hang: int, glued: bool, content: Layout) -> Layout {
    let body = if content is Nil {
        verbatim(marker)
    } else {
        concat3(
            verbatim(marker),
            if glued {
                Layout::Nil
            } else {
                space()
            },
            align(item_width(cx, hang), content),
        )
    };
    if docs.len() == 0 {
        body
    } else {
        concat3(concat(interleave(Layout::HardLine, docs)), Layout::HardLine, body)
    }
}

pub fn render_list_item(cx: LowerCtx, docs: IrList, marker: &str, hang: usize, glue_body: bool, content: Ir) -> (r: Ir)
    ensures
        r@ == item_layout(cx, docs@, marker@, hang as int, glue_body, content@),
{
    let marker = Ir::verbatim(marker);
    let body = if content.is_nil() {
        marker
    } else {
        let separator = if glue_body {
            Ir::Nil
        } else {
            Ir::space()
        };
        let width: usize = match cx.item_indent {
            ItemIndent::Hang => hang,
            ItemIndent::Indent => cx.indent_width,
            ItemIndent::Flush => 0,
        };
        Ir::concat3(marker, separator, Ir::align(width, content))
    };
    if docs.is_empty() {
        body
    } else {
        Ir::concat3(Ir::join(Ir::HardLine, docs), Ir::HardLine, body)
    }
}

/// The item at `i` of the row, and where the next one starts.
pub open spec fn item(cx: LowerCtx, flat: Seq<Option<usize>>, i: int, fuel: nat) -> (Layout, int)
    decreases fuel, 85int, 0int,
{
    let t = cx.t;
    let m = item_marker(cx, flat[i]->0 as int, fuel);
    let (text, lo, glued) = match overlay(t, flat, i + 1) {
        Some((suffix, end)) => (
            flat_text(concat(m.parts)) + suffix,
            end,
            0 <= end < flat.len() && flat[end] is Some && t.k(flat[end]->0 as int) == SyntaxKind::Comment,
        ),
        None => (flat_text(concat(m.parts)), i + 1, false),
    };
    let hi = next_item(t, flat, lo);
    let content = item_chunks(cx, flat.subrange(lo, hi), m.content, fuel);
    (item_layout(cx, m.docs, text, m.hang, glued, content), hi)
}

fn lower_item(cx: LowerCtx, flat: &Vec<Option<usize>>, i: usize, e: usize, Ghost(fuel): Ghost<nat>) -> (r: (Ir, usize))
    requires
        cx.ok(),
        row_fits(cx.t, flat@, fuel),
        i < flat@.len(),
        flat@[i as int] == Some(e),
    ensures
        (r.0@, r.1 as int) == item(cx, flat@, i as int, fuel),
        i < r.1 <= flat@.len(),
        r.1 < flat@.len() ==> flat@[r.1 as int] is Some,
    decreases fuel, 85int, 0int,
{
    let n: usize = flat.len();
    let m = split_item_marker(cx, e, Ghost(fuel));
    let mut marker = m.marker;
    let mut lo: usize = i + 1;
    let mut glue_body = false;
    match item_overlay_marker_suffix(cx, flat, i + 1, Ghost(fuel)) {
        Some((suffix, end)) => {
            marker.append(suffix.as_str());
            glue_body = if end < n {
                match flat[end] {
                    Some(next) => {
                        assert(flat@[end as int] == Some(next));
                        cx.t.kind(next) == SyntaxKind::Comment
                    },
                    None => false,
                }
            } else {
                false
            };
            lo = end;
        },
        None => {},
    }
    let hi: usize = find_next_item(cx, flat, lo, Ghost(fuel));
    let content = lower_item_chunks(cx, flat, lo, hi, m.content, Ghost(fuel));
    (render_list_item(cx, m.docs, marker.as_str(), m.hang, glue_body, content), hi)
}

/// The items from `i` on, each with the break before it.
pub open spec fn items(cx: LowerCtx, flat: Seq<Option<usize>>, i: int, fuel: nat) -> (Seq<Layout>, Seq<Layout>)
    decreases fuel, 86int, flat.len() - i,
{
    if i < 0 || i >= flat.len() {
        (Seq::empty(), Seq::empty())
    } else {
        let (l, next) = item(cx, flat, i, fuel);
        let sep = if i > 0 && flat[i - 1] is None {
            Layout::EmptyLine
        } else {
            Layout::HardLine
        };
        if i < next <= flat.len() {
            let (rest, seps) = items(cx, flat, next, fuel);
            (seq![l] + rest, seq![sep] + seps)
        } else {
            (seq![l], seq![sep])
        }
    }
}

/// The body of a list. A body without an item is not one.
pub open spec fn list_body(cx: LowerCtx, es: Seq<usize>, lifted: Option<usize>, fuel: nat) -> Option<Layout>
    decreases fuel, 87int, 0int,
{
    let flat = list_row(cx.t, es, lifted);
    let first = next_item(cx.t, flat, 0);
    if first >= flat.len() {
        None
    } else {
        let preamble = unless_nil(item_chunks(cx, flat.subrange(0, first), Seq::empty(), fuel));
        let (rest, seps) = items(cx, flat, first, fuel);
        Some(
            concat(
                joined(
                    preamble + rest,
                    if preamble.len() > 0 {
                        seq![Layout::HardLine] + seps
                    } else {
                        seps
                    },
                ),
            ),
        )
    }
}

pub fn lower_list_body(cx: LowerCtx, es: &Vec<usize>, lifted: Option<usize>, Ghost(fuel): Ghost<nat>) -> (r: Option<Ir>)
    requires
        cx.ok(),
        fits(cx.t, es@, fuel),
    ensures
        r is Some == list_body(cx, es@, lifted, fuel) is Some,
        r matches Some(x) ==> list_body(cx, es@, lifted, fuel) == Some(x@),
    decreases fuel, 87int, 0int,
{
    let flat = flatten_list_body(cx, es, lifted, Ghost(fuel));
    let first: usize = find_next_item(cx, &flat, 0, Ghost(fuel));
    if first >= flat.len() {
        return None;
    }
    let mut segments = IrList::new();
    let mut seps = IrList::new();
    let none: Vec<usize> = Vec::new();
    assert(none@ =~= Seq::<usize>::empty());
    let preamble = lower_item_chunks(cx, &flat, 0, first, none, Ghost(fuel));
    let ghost lead = unless_nil(preamble@);
    if !preamble.is_nil() {
        seps.push(Ir::HardLine);
        segments.push(preamble);
    }
    let ghost lead_seps = seps@;
    assert(segments@ =~= lead);
    let ghost all = items(cx, flat@, first as int, fuel);
    let mut i: usize = first;
    assert(segments@ + all.0 =~= lead + all.0);
    assert(seps@ + all.1 =~= lead_seps + all.1);
    while i < flat.len()
        invariant
            cx.ok(),
            row_fits(cx.t, flat@, fuel),
            i <= flat@.len(),
            i < flat@.len() ==> flat@[i as int] is Some,
            segments@ + items(cx, flat@, i as int, fuel).0 == lead + all.0,
            seps@ + items(cx, flat@, i as int, fuel).1 == lead_seps + all.1,
            segments@.len() == seps@.len(),
        decreases flat@.len() - i,
    {
        let blank = i > 0 && flat[i - 1].is_none();
        let e: usize = match flat[i] {
            Some(e) => e,
            None => 0,
        };
        let ghost were = segments@;
        let ghost were_seps = seps@;
        let (ir, next) = lower_item(cx, &flat, i, e, Ghost(fuel));
        let ghost l = ir@;
        let sep = if blank {
            Ir::EmptyLine
        } else {
            Ir::HardLine
        };
        let ghost sep_l = sep@;
        seps.push(sep);
        segments.push(ir);
        proof {
            let rest = items(cx, flat@, next as int, fuel);
            assert(segments@ + rest.0 =~= were + (seq![l] + rest.0));
            assert(seps@ + rest.1 =~= were_seps + (seq![sep_l] + rest.1));
        }
        i = next;
    }
    proof {
        let end = items(cx, flat@, i as int, fuel);
        assert(segments@ + end.0 =~= segments@);
        assert(seps@ + end.1 =~= seps@);
        assert(seps@ =~= if lead.len() > 0 {
            seq![Layout::HardLine] + all.1
        } else {
            all.1
        });
    }
    Some(join_lines(&segments, &seps))
}

/// Whether the environment is a list.
pub open spec fn is_list(cx: LowerCtx, n: int) -> bool {
    match cx.env(n) {
        Some(sig) => sig.list,
        None => false,
    }
}

pub fn is_list_env(cx: LowerCtx, n: usize) -> (r: bool)
    requires
        n < cx.t.n(),
    ensures
        r == is_list(cx, n as int),
{
    match cx.env_sig(n) {
        Some(sig) => sig.list,
        None => false,
    }
}

/// A list with its header and its end.
pub open spec fn list_framed(leading: Layout, begin: Layout, body: Layout, end: Layout) -> Layout {
    concat(seq![leading, begin, indent(concat2(Layout::HardLine, body)), Layout::HardLine, end])
}

fn frame_list(leading: Ir, begin: Ir, body: Ir, end: Ir) -> (r: Ir)
    ensures
        r@ == list_framed(leading@, begin@, body@, end@),
{
    let inner = Ir::indent(Ir::concat2(Ir::HardLine, body));
    let ghost all = seq![leading@, begin@, inner@, Layout::HardLine, end@];
    let mut out = IrList::new();
    out.push(leading);
    out.push(begin);
    out.push(inner);
    out.push(Ir::HardLine);
    out.push(end);
    assert(out@ =~= all);
    Ir::concat(out)
}

/// A list: every item on lines of its own, behind its marker.
pub open spec fn list_environment(cx: LowerCtx, n: int, fuel: nat) -> Layout
    decreases fuel, 7int, 0int,
{
    if fuel == 0 {
        Layout::Nil
    } else {
        let s = env_split(cx, n, fuel);
        match list_body(cx.absorbing(s.body), s.body, s.lifted, (fuel - 1) as nat) {
            Some(body) => list_framed(s.leading, s.begin, body, s.end),
            None => environment(cx, n, fuel),
        }
    }
}

pub fn lower_list_environment(cx: LowerCtx, n: usize, Ghost(fuel): Ghost<nat>) -> (r: Ir)
    requires
        cx.ok(),
        room(cx.t, n as int, fuel),
    ensures
        r@ == list_environment(cx, n as int, fuel),
    decreases fuel, 7int, 0int,
{
    let s = split_environment(cx, n, Ghost(fuel));
    let body_cx = cx.absorbing_trailing_control_newline(&s.body);
    match lower_list_body(body_cx, &s.body, s.lifted, Ghost((fuel - 1) as nat)) {
        Some(body) => frame_list(s.leading, s.begin, body, s.end),
        None => lower_environment(cx, n, Ghost(fuel)),
    }
}

} // verus!

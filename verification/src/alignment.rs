//! Environments whose body is a table.

use vstd::prelude::*;

use crate::cells::{cell, copy_elements, finish_cell, in_cells, within_cells};
use crate::context::{fits, in_tree, part, room, tok_at, LowerCtx};
use crate::display::{display_formula, drop_element, lower_display_formula_elements, without_element};
use crate::environments::{
    env_split, environment, lower_environment, spaces_end, split_environment, EnvParts, EnvSplit,
};
use crate::flatten::{framing_stripped, strip_virtual_dtx_framing};
use crate::gap::{peel_back, trim_trailing_break};
use crate::ir::{concat, concat2, concat4, flat_text, indent, Ir, IrList, Layout};
use crate::lower::{lower_node, lower_stream, node, streamed};
use crate::predicates::{all_gaps, any_tok, any_token, is_all_gaps};
use crate::signatures::ArgKind;
use crate::syntax::{ColAlign, SyntaxKind, Tree};
use crate::table::{
    fields, render_alignment_rows, spans_ok, strips, table, text_of, AlignRow, Cell, Field, GridItem, Record, Strip,
};
use crate::text::{str_eq, strip_end, trim, trim_end, trimmed, CharSet};

verus! {

// ---- rules ---------------------------------------------------------------------------------

/// A text without the backslashes at its start.
pub open spec fn without_slashes(text: Seq<char>) -> Seq<char>
    decreases text.len(),
{
    if text.len() > 0 && text[0] == '\\' {
        without_slashes(text.drop_first())
    } else {
        text
    }
}

fn strip_slashes<'a>(text: &'a str) -> (r: &'a str)
    ensures
        r@ == without_slashes(text@),
{
    let n: usize = text.unicode_len();
    let mut i: usize = 0;
    assert(text@.skip(0) =~= text@);
    while i < n && text.get_char(i) == '\\'
        invariant
            n == text@.len(),
            i <= n,
            without_slashes(text@.skip(i as int)) == without_slashes(text@),
        decreases n - i,
    {
        assert(text@.skip(i as int).drop_first() =~= text@.skip(i + 1));
        i = i + 1;
    }
    assert(text@.skip(i as int) =~= text@.subrange(i as int, n as int));
    text.substring_char(i, n)
}

/// Whether the command draws a line across the table.
pub open spec fn is_rule(cx: LowerCtx, n: int) -> bool {
    match cx.sig(n) {
        Some(sig) => sig.rule,
        None => false,
    }
}

pub fn is_rule_command(cx: LowerCtx, n: usize) -> (r: bool)
    requires
        n < cx.t.n(),
    ensures
        r == is_rule(cx, n as int),
{
    match cx.command_sig(n) {
        Some(sig) => sig.rule,
        None => false,
    }
}

/// Whether the token is the name of such a command.
pub open spec fn is_rule_word(cx: LowerCtx, e: int) -> bool {
    cx.t.k(e) == SyntaxKind::ControlWord && match cx.signatures.of_command(without_slashes(cx.t.txt(e))) {
        Some(sig) => sig.rule,
        None => false,
    }
}

pub fn token_is_rule_word(cx: LowerCtx, e: usize) -> (r: bool)
    requires
        e < cx.t.n(),
    ensures
        r == is_rule_word(cx, e as int),
{
    cx.t.kind(e) == SyntaxKind::ControlWord && match cx.signatures.command(strip_slashes(cx.t.text(e))) {
        Some(sig) => sig.rule,
        None => false,
    }
}

/// Whether a text says which ends of a rule are cut short: the left one, the right one or both.
pub open spec fn paren_trim(text: Seq<char>) -> bool {
    text == "(l)"@ || text == "(r)"@ || text == "(lr)"@ || text == "(rl)"@
}

/// Whether the token says which ends of a rule are cut short, such as `(lr)`.
pub fn is_paren_trim_word(t: &Tree, e: usize) -> (r: bool)
    requires
        e < t.n(),
    ensures
        r == (t.k(e as int) == SyntaxKind::Word && paren_trim(t.txt(e as int))),
{
    if t.kind(e) != SyntaxKind::Word {
        return false;
    }
    let text = t.text(e);
    str_eq(text, "(l)") || str_eq(text, "(r)") || str_eq(text, "(lr)") || str_eq(text, "(rl)")
}

/// Whether a line of its own may start with the element: a comment or a rule.
pub open spec fn starts_line(cx: LowerCtx, e: int) -> bool {
    if cx.t.tok(e) {
        cx.t.k(e) == SyntaxKind::Comment || is_rule_word(cx, e)
    } else {
        cx.t.k(e) == SyntaxKind::Command && is_rule(cx, e)
    }
}

pub fn is_comment_or_rule_start(cx: LowerCtx, e: usize) -> (r: bool)
    requires
        e < cx.t.n(),
    ensures
        r == starts_line(cx, e as int),
{
    if cx.t.is_token(e) {
        cx.t.kind(e) == SyntaxKind::Comment || token_is_rule_word(cx, e)
    } else {
        cx.t.kind(e) == SyntaxKind::Command && is_rule_command(cx, e)
    }
}

/// Whether the first argument in the subtree of siblings from `i` up to `hi` is a group.
pub open spec fn first_arg_is_group(t: &Tree, es: Seq<usize>, i: int) -> bool
    decreases es.len() - i,
{
    if i < 0 || i >= es.len() {
        false
    } else if t.node_is(es[i] as int, SyntaxKind::Group) {
        true
    } else if t.node_is(es[i] as int, SyntaxKind::Optional) {
        false
    } else {
        first_arg_is_group(t, es, i + 1)
    }
}

/// Whether a rule has taken the cell behind it for its argument.
pub open spec fn overattaches(cx: LowerCtx, n: int) -> bool {
    cx.t.node_is(n, SyntaxKind::Command) && is_rule(cx, n) && first_arg_is_group(cx.t, cx.t.kids(n), 0) && !match cx.sig(
        n,
    ) {
        Some(sig) => sig.args@.len() > 0 && sig.args@[0].kind == ArgKind::Brace,
        None => false,
    }
}

pub fn rule_overattaches_cell(cx: LowerCtx, n: usize) -> (r: bool)
    requires
        cx.ok(),
        n < cx.t.n(),
    ensures
        r == overattaches(cx, n as int),
{
    if !cx.t.is_node(n, SyntaxKind::Command) || !is_rule_command(cx, n) {
        return false;
    }
    let es = cx.children(n);
    let mut i: usize = 0;
    while i < es.len() && !cx.t.is_node(es[i], SyntaxKind::Group)
        invariant
            in_tree(cx.t, es@),
            es@ == cx.t.kids(n as int),
            i <= es@.len(),
            first_arg_is_group(cx.t, es@, i as int) == first_arg_is_group(cx.t, es@, 0),
        decreases es@.len() - i,
    {
        if cx.t.is_node(es[i], SyntaxKind::Optional) {
            return false;
        }
        i = i + 1;
    }
    if i == es.len() {
        return false;
    }
    let braced = match cx.command_sig(n) {
        Some(sig) => sig.args.len() > 0 && sig.args[0].kind == ArgKind::Brace,
        None => false,
    };
    !braced
}

// ---- flat bodies ---------------------------------------------------------------------------

/// The elements before `i`, with a rule that has taken a cell opened.
pub open spec fn opened(cx: LowerCtx, es: Seq<usize>, i: int, fuel: nat) -> Seq<usize>
    decreases fuel, 1int, i,
{
    if i <= 0 || i > es.len() {
        Seq::empty()
    } else {
        opened(cx, es, i - 1, fuel) + opened_one(cx, es[i - 1], fuel)
    }
}

pub open spec fn opened_one(cx: LowerCtx, e: usize, fuel: nat) -> Seq<usize>
    decreases fuel, 0int, 0int,
{
    if overattaches(cx, e as int) && fuel > 0 {
        let es = framing_stripped(cx, cx.t.kids(e as int));
        opened(cx, es, es.len() as int, (fuel - 1) as nat)
    } else {
        seq![e]
    }
}

fn push_alignment_element(cx: LowerCtx, inline: Vec<usize>, e: usize, Ghost(most): Ghost<nat>, Ghost(fuel): Ghost<nat>) -> (r:
    Vec<usize>)
    requires
        cx.ok(),
        fuel <= most,
        fits(cx.t, inline@, most),
        room(cx.t, e as int, fuel),
    ensures
        r@ == inline@ + opened_one(cx, e, fuel),
        fits(cx.t, r@, most),
    decreases fuel, 0int,
{
    let ghost before = inline@;
    if rule_overattaches_cell(cx, e) {
        let ghost less = (fuel - 1) as nat;
        let all = cx.children(e);
        let es = strip_virtual_dtx_framing(cx, all, Ghost(less));
        extend_alignment_elements(cx, inline, &es, Ghost(most), Ghost(less))
    } else {
        let mut out = inline;
        out.push(e);
        assert(out@ =~= before + seq![e]);
        out
    }
}

fn extend_alignment_elements(
    cx: LowerCtx,
    inline: Vec<usize>,
    es: &Vec<usize>,
    Ghost(most): Ghost<nat>,
    Ghost(fuel): Ghost<nat>,
) -> (r: Vec<usize>)
    requires
        cx.ok(),
        fuel <= most,
        fits(cx.t, inline@, most),
        fits(cx.t, es@, fuel),
    ensures
        r@ == inline@ + opened(cx, es@, es@.len() as int, fuel),
        fits(cx.t, r@, most),
    decreases fuel, 1int,
{
    let ghost before = inline@;
    let mut out = inline;
    let mut i: usize = 0;
    assert(out@ =~= before + opened(cx, es@, 0, fuel));
    while i < es.len()
        invariant
            cx.ok(),
            fuel <= most,
            fits(cx.t, out@, most),
            fits(cx.t, es@, fuel),
            i <= es@.len(),
            out@ == before + opened(cx, es@, i as int, fuel),
        decreases es@.len() - i,
    {
        assert(room(cx.t, es@[i as int] as int, fuel));
        out = push_alignment_element(cx, out, es[i], Ghost(most), Ghost(fuel));
        i = i + 1;
        assert(out@ =~= before + opened(cx, es@, i as int, fuel));
    }
    out
}

/// The kind of node that a body is wrapped in.
pub open spec fn wrapper(math: bool) -> SyntaxKind {
    if math {
        SyntaxKind::Math
    } else {
        SyntaxKind::Paragraph
    }
}

/// What the first `i` elements of a body hold, and whether its wrapper is among them. A body
/// with two wrappers is no table.
pub open spec fn flat_table(cx: LowerCtx, es: Seq<usize>, math: bool, i: int, fuel: nat) -> Option<(Seq<usize>, bool)>
    decreases i,
{
    if i <= 0 || i > es.len() {
        Some((Seq::empty(), false))
    } else {
        match flat_table(cx, es, math, i - 1, fuel) {
            None => None,
            Some((inline, wrapped)) => {
                let e = es[i - 1];
                if cx.t.node_is(e as int, wrapper(math)) {
                    if wrapped {
                        None
                    } else {
                        let inner = framing_stripped(cx, cx.t.kids(e as int));
                        Some((inline + opened(cx, inner, inner.len() as int, fuel), true))
                    }
                } else if cx.t.gap(e as int) {
                    Some((inline, wrapped))
                } else {
                    Some((inline + opened_one(cx, e, fuel), wrapped))
                }
            },
        }
    }
}

/// The body of a table as one row of elements.
pub open spec fn table_elements(cx: LowerCtx, body: Seq<usize>, math: bool, fuel: nat) -> Option<Seq<usize>> {
    let es = framing_stripped(cx, body);
    match flat_table(cx, es, math, es.len() as int, fuel) {
        Some((inline, _)) => Some(inline),
        None => None,
    }
}

proof fn lemma_flat_table_none(cx: LowerCtx, es: Seq<usize>, math: bool, i: int, j: int, fuel: nat)
    requires
        0 <= i <= j <= es.len(),
        flat_table(cx, es, math, i, fuel) is None,
    ensures
        flat_table(cx, es, math, j, fuel) is None,
    decreases j - i,
{
    if i < j {
        lemma_flat_table_none(cx, es, math, i, j - 1, fuel);
    }
}

pub fn flatten_alignment_body(cx: LowerCtx, body: &Vec<usize>, math: bool, Ghost(fuel): Ghost<nat>) -> (r: Option<
    Vec<usize>,
>)
    requires
        cx.ok(),
        fits(cx.t, body@, fuel),
    ensures
        r is Some == table_elements(cx, body@, math, fuel) is Some,
        r matches Some(x) ==> table_elements(cx, body@, math, fuel) == Some(x@) && fits(cx.t, x@, fuel),
{
    let kind = if math {
        SyntaxKind::Math
    } else {
        SyntaxKind::Paragraph
    };
    let es = strip_virtual_dtx_framing(cx, copy_elements(body), Ghost(fuel));
    let mut inline: Vec<usize> = Vec::new();
    let mut wrapped = false;
    let mut i: usize = 0;
    assert(inline@ =~= Seq::<usize>::empty());
    while i < es.len()
        invariant
            cx.ok(),
            fits(cx.t, es@, fuel),
            fits(cx.t, inline@, fuel),
            kind == wrapper(math),
            es@ == framing_stripped(cx, body@),
            i <= es@.len(),
            flat_table(cx, es@, math, i as int, fuel) == Some((inline@, wrapped)),
        decreases es@.len() - i,
    {
        let e: usize = es[i];
        assert(room(cx.t, es@[i as int] as int, fuel));
        if cx.t.is_node(e, kind) {
            if wrapped {
                proof {
                    lemma_flat_table_none(cx, es@, math, i + 1, es@.len() as int, fuel);
                }
                return None;
            }
            wrapped = true;
            let all = cx.children(e);
            let inner = strip_virtual_dtx_framing(cx, all, Ghost(fuel));
            inline = extend_alignment_elements(cx, inline, &inner, Ghost(fuel), Ghost(fuel));
        } else if !cx.t.is_gap(e) {
            inline = push_alignment_element(cx, inline, e, Ghost(fuel), Ghost(fuel));
        }
        i = i + 1;
    }
    Some(inline)
}

// ---- lines between rows --------------------------------------------------------------------

/// Where a line of comments and rules ends, and whether it has a rule and a comment. The
/// elements from `i` on are to be read, and those before `end` are of the line.
pub open spec fn line_scan(cx: LowerCtx, es: Seq<usize>, i: int, end: int, rule: bool) -> Option<(int, bool, bool)>
    decreases es.len() - i,
{
    let t = cx.t;
    if i < 0 || i >= es.len() || t.tok_is(es[i] as int, SyntaxKind::Newline) {
        Some((end, rule, false))
    } else {
        let e = es[i] as int;
        if t.tok_is(e, SyntaxKind::Whitespace) {
            line_scan(cx, es, i + 1, end, rule)
        } else if t.tok_is(e, SyntaxKind::Comment) {
            Some((i + 1, rule, true))
        } else if (t.node_is(e, SyntaxKind::Command) && is_rule(cx, e)) || (t.tok(e) && is_rule_word(cx, e)) {
            line_scan(cx, es, i + 1, i + 1, true)
        } else if rule && ((t.tok_is(e, SyntaxKind::Word) && paren_trim(t.txt(e))) || t.node_is(e, SyntaxKind::Group)) {
            line_scan(cx, es, i + 1, i + 1, rule)
        } else {
            None
        }
    }
}

/// A line between rows.
#[verifier::ext_equal]
pub struct RuleLine {
    pub text: Seq<char>,
    pub next: int,
    pub has_rule: bool,
}

/// Where the line break behind `i` ends.
pub open spec fn past_line_break(t: &Tree, es: Seq<usize>, i: int) -> int {
    let j = spaces_end(t, es, i);
    if tok_at(t, es, j, SyntaxKind::Newline) {
        j + 1
    } else {
        j
    }
}

/// The line of comments and rules that starts at `i`.
pub open spec fn rule_line(cx: LowerCtx, es: Seq<usize>, i: int, fuel: nat) -> Option<RuleLine>
    decreases fuel, 70int, 0int,
{
    match line_scan(cx, es, i, i, false) {
        None => None,
        Some((end, rule, comment)) => if !rule && !comment {
            None
        } else {
            Some(
                RuleLine {
                    text: trimmed(flat_text(streamed(cx, es.subrange(i, end), fuel))),
                    next: past_line_break(cx.t, es, end),
                    has_rule: rule,
                },
            )
        },
    }
}

fn scan_line(cx: LowerCtx, es: &Vec<usize>, start: usize) -> (r: Option<(usize, bool, bool)>)
    requires
        in_tree(cx.t, es@),
        start < es@.len(),
    ensures
        r is Some == line_scan(cx, es@, start as int, start as int, false) is Some,
        r matches Some((end, rule, comment)) ==> line_scan(cx, es@, start as int, start as int, false) == Some(
            (end as int, rule, comment),
        ) && start <= end <= es@.len() && (rule || comment ==> start < end),
{
    let ghost all = line_scan(cx, es@, start as int, start as int, false);
    let mut end: usize = start;
    let mut rule = false;
    let mut i: usize = start;
    while i < es.len() && !cx.t.token_is(es[i], SyntaxKind::Newline)
        invariant
            in_tree(cx.t, es@),
            start <= end <= i <= es@.len(),
            rule ==> start < end,
            all == line_scan(cx, es@, start as int, start as int, false),
            line_scan(cx, es@, i as int, end as int, rule) == all,
        decreases es@.len() - i,
    {
        let e: usize = es[i];
        if cx.t.token_is(e, SyntaxKind::Whitespace) {
        } else if cx.t.token_is(e, SyntaxKind::Comment) {
            return Some((i + 1, rule, true));
        } else if (cx.t.is_node(e, SyntaxKind::Command) && is_rule_command(cx, e)) || (cx.t.is_token(e)
            && token_is_rule_word(cx, e)) {
            rule = true;
            end = i + 1;
        } else if rule && ((cx.t.is_token(e) && is_paren_trim_word(cx.t, e)) || cx.t.is_node(e, SyntaxKind::Group)) {
            end = i + 1;
        } else {
            return None;
        }
        i = i + 1;
    }
    Some((end, rule, false))
}

/// A line between rows.
struct NonRowLine {
    text: String,
    next: usize,
    has_rule: bool,
}

fn non_row_line(cx: LowerCtx, es: &Vec<usize>, start: usize, Ghost(fuel): Ghost<nat>) -> (r: Option<NonRowLine>)
    requires
        cx.ok(),
        fits(cx.t, es@, fuel),
        start < es@.len(),
    ensures
        r is Some == rule_line(cx, es@, start as int, fuel) is Some,
        r matches Some(x) ==> rule_line(cx, es@, start as int, fuel) == Some(
            RuleLine { text: x.text@, next: x.next as int, has_rule: x.has_rule },
        ) && start < x.next <= es@.len(),
    decreases fuel, 70int, 0int,
{
    match scan_line(cx, es, start) {
        None => None,
        Some((end, rule, comment)) => {
            if !rule && !comment {
                return None;
            }
            let line = part(es, start, end);
            assert(fits(cx.t, line@, fuel));
            let text = lower_stream(cx, &line, Ghost(fuel)).print_flat();
            let mut next: usize = end;
            while next < es.len() && cx.t.token_is(es[next], SyntaxKind::Whitespace)
                invariant
                    in_tree(cx.t, es@),
                    end <= next <= es@.len(),
                    spaces_end(cx.t, es@, next as int) == spaces_end(cx.t, es@, end as int),
                decreases es@.len() - next,
            {
                next = next + 1;
            }
            if next < es.len() && cx.t.token_is(es[next], SyntaxKind::Newline) {
                next = next + 1;
            }
            Some(NonRowLine { text: trim(text.as_str()).to_owned(), next, has_rule: rule })
        },
    }
}

/// Whether only comments on lines of their own are behind `i`. `own` holds behind a line break.
pub open spec fn only_comment_lines(t: &Tree, es: Seq<usize>, i: int, own: bool) -> bool
    decreases es.len() - i,
{
    if i < 0 || i >= es.len() {
        true
    } else if t.tok_is(es[i] as int, SyntaxKind::Newline) {
        only_comment_lines(t, es, i + 1, true)
    } else if t.tok_is(es[i] as int, SyntaxKind::Whitespace) {
        only_comment_lines(t, es, i + 1, own)
    } else {
        t.tok_is(es[i] as int, SyntaxKind::Comment) && own && only_comment_lines(t, es, i + 1, false)
    }
}

pub fn rest_is_trivia_and_comment_lines(cx: LowerCtx, es: &Vec<usize>, start: usize) -> (r: bool)
    requires
        in_tree(cx.t, es@),
        start <= es@.len(),
    ensures
        r == only_comment_lines(cx.t, es@, start as int, false),
{
    let mut own_line = false;
    let mut i: usize = start;
    while i < es.len()
        invariant
            in_tree(cx.t, es@),
            start <= i <= es@.len(),
            only_comment_lines(cx.t, es@, i as int, own_line) == only_comment_lines(cx.t, es@, start as int, false),
        decreases es@.len() - i,
    {
        if cx.t.token_is(es[i], SyntaxKind::Newline) {
            own_line = true;
        } else if cx.t.token_is(es[i], SyntaxKind::Whitespace) {
        } else if cx.t.token_is(es[i], SyntaxKind::Comment) && own_line {
            own_line = false;
        } else {
            return false;
        }
        i = i + 1;
    }
    true
}

// ---- the grid ------------------------------------------------------------------------------

/// A table as far as it has been read.
#[verifier::ext_equal]
pub struct Grid {
    pub items: Seq<Strip>,
    /// The cells of the row that is being read.
    pub cells: Seq<Field>,
    /// The elements of the cell that is being read.
    pub cell: Seq<usize>,
}

impl Grid {
    pub open spec fn start() -> Grid {
        Grid { items: Seq::empty(), cells: Seq::empty(), cell: Seq::empty() }
    }

    /// Whether nothing of a row has been read.
    pub open spec fn at_boundary(self, t: &Tree) -> bool {
        self.cells.len() == 0 && all_gaps(t, self.cell)
    }

    /// A comment behind a row that has none belongs to it; any other line of comments and rules
    /// stands by itself.
    pub open spec fn with_line(self, t: &Tree, text: Seq<char>, has_rule: bool) -> Grid {
        let items = self.items;
        let own_line = any_tok(t, self.cell, SyntaxKind::Newline);
        let with_text = if own_line || has_rule || items.len() == 0 || !(items.last() is Row) || items.last()->Row_0.comment is Some {
            items.push(Strip::Line(text))
        } else {
            items.drop_last().push(Strip::Row(Record { comment: Some(text), ..items.last()->Row_0 }))
        };
        Grid { items: with_text, cells: self.cells, cell: Seq::empty() }
    }

    pub open spec fn with_cell(self, field: Field) -> Grid {
        Grid { cells: self.cells.push(field), cell: Seq::empty(), ..self }
    }

    pub open spec fn with_row(self, field: Field, line_break: Option<Seq<char>>, comment: Option<Seq<char>>) -> Grid {
        Grid {
            items: self.items.push(Strip::Row(Record { cells: self.cells.push(field), line_break, comment })),
            cells: Seq::empty(),
            cell: Seq::empty(),
        }
    }

    /// The items of the table with its last cell. A row with nothing in it is none.
    pub open spec fn with_last(self, field: Field) -> Seq<Strip> {
        if self.cells.len() == 0 && field.text.len() == 0 && field.block is None && field.span == 1 {
            self.items
        } else {
            self.with_row(field, None, None).items
        }
    }
}

/// A tab ends a cell, which may not span lines.
pub open spec fn past_tab(cx: LowerCtx, inner: LowerCtx, math: bool, s: Grid, fuel: nat) -> Option<Grid>
    decreases fuel, 72int, 0int,
{
    match cell(inner, s.cell, math, fuel) {
        Some(field) => if field.block is Some {
            None
        } else {
            Some(s.with_cell(field))
        },
        None => None,
    }
}

/// A line break ends a row.
pub open spec fn past_row(cx: LowerCtx, inner: LowerCtx, math: bool, e: int, s: Grid, fuel: nat) -> Option<Grid>
    decreases fuel, 72int, 0int,
{
    match cell(inner, s.cell, math, fuel) {
        Some(field) => Some(s.with_row(field, Some(trimmed(flat_text(node(cx, e, fuel)))), None)),
        None => None,
    }
}

/// A comment ends a row.
pub open spec fn past_comment(cx: LowerCtx, inner: LowerCtx, math: bool, e: int, s: Grid, fuel: nat) -> Option<Grid>
    decreases fuel, 72int, 0int,
{
    match cell(inner, s.cell, math, fuel) {
        Some(field) => Some(s.with_row(field, None, Some(strip_end(cx.t.txt(e), CharSet::White)))),
        None => None,
    }
}

/// What is known once the element at `i` is behind: cells end at a tab, rows at a line break
/// and at a comment behind which only comments follow.
pub open spec fn grid_step(cx: LowerCtx, inner: LowerCtx, math: bool, es: Seq<usize>, i: int, s: Grid, fuel: nat) -> Option<Grid>
    decreases fuel, 73int, 0int,
{
    let e = es[i] as int;
    if cx.t.tok_is(e, SyntaxKind::Ampersand) {
        past_tab(cx, inner, math, s, fuel)
    } else if cx.t.node_is(e, SyntaxKind::LineBreak) {
        past_row(cx, inner, math, e, s, fuel)
    } else if cx.t.tok_is(e, SyntaxKind::Comment) {
        if only_comment_lines(cx.t, es, i + 1, false) {
            past_comment(cx, inner, math, e, s, fuel)
        } else {
            None
        }
    } else {
        Some(Grid { cell: s.cell.push(es[i]), ..s })
    }
}

/// The line of comments and rules at `i`, where one may stand there.
pub open spec fn line_here(cx: LowerCtx, es: Seq<usize>, i: int, s: Grid, fuel: nat) -> Option<RuleLine>
    decreases fuel, 71int, 0int,
{
    if s.at_boundary(cx.t) && starts_line(cx, es[i] as int) {
        rule_line(cx, es, i, fuel)
    } else {
        None
    }
}

/// The items of the table whose elements from `i` on are still to be read.
pub open spec fn grid(cx: LowerCtx, inner: LowerCtx, math: bool, es: Seq<usize>, i: int, s: Grid, fuel: nat) -> Option<Seq<Strip>>
    decreases fuel, 74int, es.len() - i,
{
    if i < 0 || i >= es.len() {
        match cell(inner, s.cell, math, fuel) {
            Some(field) => Some(s.with_last(field)),
            None => None,
        }
    } else {
        match line_here(cx, es, i, s, fuel) {
            Some(line) => if i < line.next <= es.len() {
                grid(cx, inner, math, es, line.next, s.with_line(cx.t, line.text, line.has_rule), fuel)
            } else {
                None
            },
            None => match grid_step(cx, inner, math, es, i, s, fuel) {
                Some(s) => grid(cx, inner, math, es, i + 1, s, fuel),
                None => None,
            },
        }
    }
}

/// The rows of a table, and the lines between them.
pub open spec fn alignment_grid(
    cx: LowerCtx,
    body: Seq<usize>,
    math: bool,
    soft: bool,
    lifted: Option<usize>,
    fuel: nat,
) -> Option<Seq<Strip>>
    decreases fuel, 75int, 0int,
{
    match table_elements(cx, body, math, fuel) {
        Some(inline) => grid(
            cx,
            within_cells(cx, soft),
            math,
            without_element(inline, lifted, inline.len() as int),
            0,
            Grid::start(),
            fuel,
        ),
        None => None,
    }
}

struct GridState {
    items: Vec<GridItem>,
    cells: Vec<Cell>,
    cell: Vec<usize>,
}

impl GridState {
    spec fn v(&self) -> Grid {
        Grid { items: strips(self.items@), cells: fields(self.cells@), cell: self.cell@ }
    }

    spec fn ok(&self, t: &Tree, fuel: nat) -> bool {
        &&& spans_ok(strips(self.items@))
        &&& forall|k: int| 0 <= k < self.cells@.len() ==> (#[trigger] self.cells@[k]).span >= 1
        &&& fits(t, self.cell@, fuel)
    }

    fn new() -> (r: GridState)
        ensures
            r.v() == Grid::start(),
            forall|t: &Tree, fuel: nat| #[trigger] r.ok(t, fuel),
    {
        let r = GridState { items: Vec::new(), cells: Vec::new(), cell: Vec::new() };
        assert(r.v() =~= Grid::start());
        r
    }

    fn with_line(self, cx: LowerCtx, text: String, has_rule: bool, Ghost(fuel): Ghost<nat>) -> (r: GridState)
        requires
            self.ok(cx.t, fuel),
        ensures
            r.v() == self.v().with_line(cx.t, text@, has_rule),
            r.ok(cx.t, fuel),
    {
        let own_line = any_token(cx, &self.cell, SyntaxKind::Newline);
        let ghost before = strips(self.items@);
        let ghost was = self;
        let ghost said = text@;
        let mut items = self.items;
        let n: usize = items.len();
        let after_row = n > 0 && match &items[n - 1] {
            GridItem::Row(row) => row.trailing_comment.is_none(),
            GridItem::Passthrough(_) => false,
        };
        if own_line || has_rule || !after_row {
            items.push(GridItem::Passthrough(text));
            assert(strips(items@) =~= before.push(Strip::Line(said)));
            proof {
                assert forall|i: int, k: int|
                    0 <= i < strips(items@).len() && strips(items@)[i] is Row && 0 <= k
                        < strips(items@)[i]->Row_0.cells.len() implies (
                #[trigger] strips(items@)[i]->Row_0.cells[k]).span >= 1 by {
                    assert(strips(items@)[i] == before[i]);
                    assert(before[i]->Row_0.cells[k].span >= 1);
                }
            }
        } else {
            let ghost last = before.last();
            match items.pop() {
                Some(GridItem::Row(row)) => {
                    let ghost kept = row@;
                    let with_text = GridItem::Row(
                        AlignRow { cells: row.cells, line_break: row.line_break, trailing_comment: Some(text) },
                    );
                    items.push(with_text);
                    proof {
                        assert(strips(items@) =~= before.drop_last().push(
                            Strip::Row(Record { comment: Some(said), ..kept }),
                        ));
                        assert forall|i: int, k: int|
                            0 <= i < strips(items@).len() && strips(items@)[i] is Row && 0 <= k
                                < strips(items@)[i]->Row_0.cells.len() implies (
                        #[trigger] strips(items@)[i]->Row_0.cells[k]).span >= 1 by {
                            assert(before[i]->Row_0.cells[k].span >= 1);
                        }
                    }
                },
                _ => {
                    assert(false);
                },
            }
        }
        let r = GridState { items, cells: self.cells, cell: Vec::new() };
        assert(r.cell@ =~= Seq::<usize>::empty());
        r
    }

    fn with_cell(self, cell: Cell, Ghost(t): Ghost<&Tree>, Ghost(fuel): Ghost<nat>) -> (r: GridState)
        requires
            self.ok(t, fuel),
            cell.span >= 1,
        ensures
            r.v() == self.v().with_cell(cell@),
            r.ok(t, fuel),
    {
        let ghost before = fields(self.cells@);
        let ghost field = cell@;
        let mut cells = self.cells;
        cells.push(cell);
        assert(fields(cells@) =~= before.push(field));
        let r = GridState { items: self.items, cells, cell: Vec::new() };
        assert(r.cell@ =~= Seq::<usize>::empty());
        r
    }

    fn with_row(
        self,
        cell: Cell,
        line_break: Option<String>,
        trailing_comment: Option<String>,
        Ghost(t): Ghost<&Tree>,
        Ghost(fuel): Ghost<nat>,
    ) -> (r: GridState)
        requires
            self.ok(t, fuel),
            cell.span >= 1,
        ensures
            r.v() == self.v().with_row(cell@, text_of(line_break), text_of(trailing_comment)),
            r.ok(t, fuel),
    {
        let ghost before = fields(self.cells@);
        let ghost were = strips(self.items@);
        let ghost field = cell@;
        let mut cells = self.cells;
        cells.push(cell);
        assert(fields(cells@) =~= before.push(field));
        let mut items = self.items;
        let row = GridItem::Row(AlignRow { cells, line_break, trailing_comment });
        let ghost strip = row@;
        items.push(row);
        proof {
            assert(strips(items@) =~= were.push(strip));
            assert forall|i: int, k: int|
                0 <= i < strips(items@).len() && strips(items@)[i] is Row && 0 <= k < strips(items@)[i]->Row_0.cells.len() implies (
            #[trigger] strips(items@)[i]->Row_0.cells[k]).span >= 1 by {
                if i < were.len() {
                    assert(were[i]->Row_0.cells[k].span >= 1);
                } else {
                    assert(strips(items@)[i]->Row_0.cells[k] == cells@[k]@);
                }
            }
        }
        let r = GridState { items, cells: Vec::new(), cell: Vec::new() };
        assert(r.cell@ =~= Seq::<usize>::empty());
        assert(fields(r.cells@) =~= Seq::<Field>::empty());
        r
    }

    fn with_element(self, e: usize, Ghost(t): Ghost<&Tree>, Ghost(fuel): Ghost<nat>) -> (r: GridState)
        requires
            self.ok(t, fuel),
            room(t, e as int, fuel),
        ensures
            r.v() == (Grid { cell: self.v().cell.push(e), ..self.v() }),
            r.ok(t, fuel),
    {
        let mut cell = self.cell;
        cell.push(e);
        GridState { items: self.items, cells: self.cells, cell }
    }
}

fn take_tab(cx: LowerCtx, inner: LowerCtx, math: bool, s: GridState, Ghost(fuel): Ghost<nat>) -> (r: Option<GridState>)
    requires
        cx.ok(),
        inner.ok(),
        inner.t == cx.t,
        s.ok(cx.t, fuel),
    ensures
        r is Some == past_tab(cx, inner, math, s.v(), fuel) is Some,
        r matches Some(x) ==> past_tab(cx, inner, math, s.v(), fuel) == Some(x.v()) && x.ok(cx.t, fuel),
    decreases fuel, 72int, 0int,
{
    match finish_cell(inner, &s.cell, math, Ghost(fuel)) {
        Some(cell) => {
            if cell.block.is_some() {
                None
            } else {
                Some(s.with_cell(cell, Ghost(cx.t), Ghost(fuel)))
            }
        },
        None => None,
    }
}

fn take_row(cx: LowerCtx, inner: LowerCtx, math: bool, e: usize, s: GridState, Ghost(fuel): Ghost<nat>) -> (r: Option<GridState>)
    requires
        cx.ok(),
        inner.ok(),
        inner.t == cx.t,
        s.ok(cx.t, fuel),
        room(cx.t, e as int, fuel),
    ensures
        r is Some == past_row(cx, inner, math, e as int, s.v(), fuel) is Some,
        r matches Some(x) ==> past_row(cx, inner, math, e as int, s.v(), fuel) == Some(x.v()) && x.ok(cx.t, fuel),
    decreases fuel, 72int, 0int,
{
    match finish_cell(inner, &s.cell, math, Ghost(fuel)) {
        Some(cell) => {
            let text = lower_node(cx, e, Ghost(fuel)).print_flat();
            let line_break = trim(text.as_str()).to_owned();
            Some(s.with_row(cell, Some(line_break), None, Ghost(cx.t), Ghost(fuel)))
        },
        None => None,
    }
}

fn take_comment(cx: LowerCtx, inner: LowerCtx, math: bool, e: usize, s: GridState, Ghost(fuel): Ghost<nat>) -> (r: Option<GridState>)
    requires
        cx.ok(),
        inner.ok(),
        inner.t == cx.t,
        s.ok(cx.t, fuel),
        room(cx.t, e as int, fuel),
    ensures
        r is Some == past_comment(cx, inner, math, e as int, s.v(), fuel) is Some,
        r matches Some(x) ==> past_comment(cx, inner, math, e as int, s.v(), fuel) == Some(x.v()) && x.ok(cx.t, fuel),
    decreases fuel, 72int, 0int,
{
    match finish_cell(inner, &s.cell, math, Ghost(fuel)) {
        Some(cell) => {
            let text = trim_end(cx.t.text(e), CharSet::White).to_owned();
            Some(s.with_row(cell, None, Some(text), Ghost(cx.t), Ghost(fuel)))
        },
        None => None,
    }
}

fn take_element(
    cx: LowerCtx,
    inner: LowerCtx,
    math: bool,
    es: &Vec<usize>,
    i: usize,
    s: GridState,
    Ghost(fuel): Ghost<nat>,
) -> (r: Option<GridState>)
    requires
        cx.ok(),
        fits(cx.t, es@, fuel),
        i < es@.len(),
        inner.ok(),
        inner.t == cx.t,
        s.ok(cx.t, fuel),
    ensures
        r is Some == grid_step(cx, inner, math, es@, i as int, s.v(), fuel) is Some,
        r matches Some(x) ==> grid_step(cx, inner, math, es@, i as int, s.v(), fuel) == Some(x.v()) && x.ok(cx.t, fuel),
    decreases fuel, 73int, 0int,
{
    let n: usize = es.len();
    let e: usize = es[i];
    assert(room(cx.t, es@[i as int] as int, fuel));
    if cx.t.token_is(e, SyntaxKind::Ampersand) {
        take_tab(cx, inner, math, s, Ghost(fuel))
    } else if cx.t.is_node(e, SyntaxKind::LineBreak) {
        take_row(cx, inner, math, e, s, Ghost(fuel))
    } else if cx.t.token_is(e, SyntaxKind::Comment) {
        if rest_is_trivia_and_comment_lines(cx, es, i + 1) {
            take_comment(cx, inner, math, e, s, Ghost(fuel))
        } else {
            None
        }
    } else {
        Some(s.with_element(e, Ghost(cx.t), Ghost(fuel)))
    }
}

fn take_line(cx: LowerCtx, es: &Vec<usize>, i: usize, s: &GridState, Ghost(fuel): Ghost<nat>) -> (r: Option<NonRowLine>)
    requires
        cx.ok(),
        fits(cx.t, es@, fuel),
        i < es@.len(),
        s.ok(cx.t, fuel),
    ensures
        r is Some == line_here(cx, es@, i as int, s.v(), fuel) is Some,
        r matches Some(x) ==> line_here(cx, es@, i as int, s.v(), fuel) == Some(
            RuleLine { text: x.text@, next: x.next as int, has_rule: x.has_rule },
        ) && i < x.next <= es@.len(),
    decreases fuel, 71int, 0int,
{
    if s.cells.len() == 0 && is_all_gaps(cx, &s.cell) && is_comment_or_rule_start(cx, es[i]) {
        non_row_line(cx, es, i, Ghost(fuel))
    } else {
        None
    }
}

fn finish_grid(cx: LowerCtx, inner: LowerCtx, math: bool, s: GridState, Ghost(fuel): Ghost<nat>) -> (r: Option<Vec<GridItem>>)
    requires
        cx.ok(),
        inner.ok(),
        inner.t == cx.t,
        s.ok(cx.t, fuel),
    ensures
        ({
            let last = cell(inner, s.v().cell, math, fuel);
            &&& r is Some == last is Some
            &&& r matches Some(x) ==> strips(x@) == s.v().with_last(last->0) && spans_ok(strips(x@))
        }),
    decreases fuel, 72int, 0int,
{
    match finish_cell(inner, &s.cell, math, Ghost(fuel)) {
        Some(cell) => {
            if s.cells.len() == 0 && cell.text.as_str().unicode_len() == 0 && cell.block.is_none() && cell.span == 1 {
                Some(s.items)
            } else {
                Some(s.with_row(cell, None, None, Ghost(cx.t), Ghost(fuel)).items)
            }
        },
        None => None,
    }
}

pub fn build_alignment_grid(
    cx: LowerCtx,
    body: &Vec<usize>,
    math: bool,
    soft: bool,
    lifted: Option<usize>,
    Ghost(fuel): Ghost<nat>,
) -> (r: Option<Vec<GridItem>>)
    requires
        cx.ok(),
        fits(cx.t, body@, fuel),
    ensures
        r is Some == alignment_grid(cx, body@, math, soft, lifted, fuel) is Some,
        r matches Some(x) ==> alignment_grid(cx, body@, math, soft, lifted, fuel) == Some(strips(x@)) && spans_ok(
            strips(x@),
        ),
    decreases fuel, 75int, 0int,
{
    let inline = match flatten_alignment_body(cx, body, math, Ghost(fuel)) {
        Some(inline) => inline,
        None => {
            return None;
        },
    };
    let es = drop_element(cx.t, &inline, lifted, Ghost(fuel));
    let inner = in_cells(cx, soft);
    let mut s = GridState::new();
    let ghost all = grid(cx, inner, math, es@, 0, Grid::start(), fuel);
    let mut i: usize = 0;
    assert(s.ok(cx.t, fuel));
    while i < es.len()
        invariant
            cx.ok(),
            inner.ok(),
            inner.t == cx.t,
            fits(cx.t, es@, fuel),
            i <= es@.len(),
            s.ok(cx.t, fuel),
            all == alignment_grid(cx, body@, math, soft, lifted, fuel),
            grid(cx, inner, math, es@, i as int, s.v(), fuel) == all,
        decreases es@.len() - i,
    {
        match take_line(cx, &es, i, &s, Ghost(fuel)) {
            Some(line) => {
                s = s.with_line(cx, line.text, line.has_rule, Ghost(fuel));
                i = line.next;
            },
            None => {
                match take_element(cx, inner, math, &es, i, s, Ghost(fuel)) {
                    Some(next) => {
                        s = next;
                    },
                    None => {
                        return None;
                    },
                }
                i = i + 1;
            },
        }
    }
    finish_grid(cx, inner, math, s, Ghost(fuel))
}

// ---- environments --------------------------------------------------------------------------

/// Whether the environment is a table.
pub open spec fn is_alignment(cx: LowerCtx, n: int) -> bool {
    match cx.env(n) {
        Some(sig) => sig.align,
        None => false,
    }
}

pub fn is_alignment_env(cx: LowerCtx, n: usize) -> (r: bool)
    requires
        n < cx.t.n(),
    ensures
        r == is_alignment(cx, n as int),
{
    match cx.env_sig(n) {
        Some(sig) => sig.align,
        None => false,
    }
}

/// Whether the environment is math.
pub open spec fn is_math(cx: LowerCtx, n: int) -> bool {
    match cx.env(n) {
        Some(sig) => sig.math,
        None => false,
    }
}

pub fn is_math_env(cx: LowerCtx, n: usize) -> (r: bool)
    requires
        n < cx.t.n(),
    ensures
        r == is_math(cx, n as int),
{
    match cx.env_sig(n) {
        Some(sig) => sig.math,
        None => false,
    }
}

/// Whether an element is a tab that separates cells.
pub open spec fn any_kind(t: &Tree, es: Seq<usize>, kind: SyntaxKind) -> bool {
    exists|i: int| 0 <= i < es.len() && t.k(#[trigger] es[i] as int) == kind
}

fn has_kind(cx: LowerCtx, es: &Vec<usize>, kind: SyntaxKind) -> (r: bool)
    requires
        in_tree(cx.t, es@),
    ensures
        r == any_kind(cx.t, es@, kind),
{
    let mut i: usize = 0;
    while i < es.len()
        invariant
            in_tree(cx.t, es@),
            i <= es@.len(),
            forall|j: int| 0 <= j < i ==> cx.t.k(#[trigger] es@[j] as int) != kind,
        decreases es@.len() - i,
    {
        if cx.t.kind(es[i]) == kind {
            return true;
        }
        i = i + 1;
    }
    false
}

/// Whether a tab stands in the body itself or in one of its paragraphs.
pub open spec fn top_level_tab(t: &Tree, n: int) -> bool {
    exists|i: int|
        0 <= i < t.kids(n).len() && {
            let e = #[trigger] t.kids(n)[i] as int;
            t.tok_is(e, SyntaxKind::Ampersand) || (t.node_is(e, SyntaxKind::Paragraph) && any_kind(
                t,
                t.kids(e),
                SyntaxKind::Ampersand,
            ))
        }
}

pub fn body_has_top_level_ampersand(cx: LowerCtx, n: usize) -> (r: bool)
    requires
        cx.ok(),
        n < cx.t.n(),
    ensures
        r == top_level_tab(cx.t, n as int),
{
    let es = cx.children(n);
    let mut i: usize = 0;
    while i < es.len()
        invariant
            cx.ok(),
            in_tree(cx.t, es@),
            es@ == cx.t.kids(n as int),
            i <= es@.len(),
            forall|j: int|
                0 <= j < i ==> {
                    let e = #[trigger] es@[j] as int;
                    !(cx.t.tok_is(e, SyntaxKind::Ampersand) || (cx.t.node_is(e, SyntaxKind::Paragraph) && any_kind(
                        cx.t,
                        cx.t.kids(e),
                        SyntaxKind::Ampersand,
                    )))
                },
        decreases es@.len() - i,
    {
        let e: usize = es[i];
        if cx.t.token_is(e, SyntaxKind::Ampersand) {
            return true;
        }
        if cx.t.is_node(e, SyntaxKind::Paragraph) {
            let inner = cx.children(e);
            if has_kind(cx, &inner, SyntaxKind::Ampersand) {
                return true;
            }
        }
        i = i + 1;
    }
    false
}

/// The last child node of a kind among the children before `i`.
pub open spec fn last_kid(t: &Tree, es: Seq<usize>, kind: SyntaxKind, i: int) -> Option<usize>
    decreases i,
{
    if i <= 0 || i > es.len() {
        None
    } else if t.node_is(es[i - 1] as int, kind) {
        Some(es[i - 1])
    } else {
        last_kid(t, es, kind, i - 1)
    }
}

/// How the columns of the environment are aligned, as its column specification says.
pub open spec fn column_aligns(cx: LowerCtx, n: int) -> Seq<ColAlign> {
    let t = cx.t;
    if !t.node_is(n, SyntaxKind::Environment) {
        Seq::empty()
    } else {
        match t.kid(n, SyntaxKind::Begin) {
            Some(b) => if !is_alignment(cx, b as int) {
                Seq::empty()
            } else {
                match last_kid(t, t.kids(b as int), SyntaxKind::Group, t.kids(b as int).len() as int) {
                    Some(g) => match t.elems@[g as int].facts.columns {
                        Some(columns) => columns@,
                        None => Seq::empty(),
                    },
                    None => Seq::empty(),
                }
            },
            None => Seq::empty(),
        }
    }
}

fn copy_aligns(aligns: &Vec<ColAlign>) -> (r: Vec<ColAlign>)
    ensures
        r@ == aligns@,
{
    let mut out: Vec<ColAlign> = Vec::new();
    let mut i: usize = 0;
    while i < aligns.len()
        invariant
            i <= aligns@.len(),
            out@ =~= aligns@.take(i as int),
        decreases aligns@.len() - i,
    {
        out.push(aligns[i]);
        i = i + 1;
    }
    assert(aligns@.take(aligns@.len() as int) =~= aligns@);
    out
}

pub fn column_alignments(cx: LowerCtx, n: usize) -> (r: Vec<ColAlign>)
    requires
        cx.ok(),
        n < cx.t.n(),
    ensures
        r@ == column_aligns(cx, n as int),
{
    proof {
        reveal(LowerCtx::ok);
    }
    let none: Vec<ColAlign> = Vec::new();
    assert(none@ =~= Seq::<ColAlign>::empty());
    if !cx.t.is_node(n, SyntaxKind::Environment) {
        return none;
    }
    match cx.t.nth_child(n, SyntaxKind::Begin, 0) {
        Some(b) => {
            if !is_alignment_env(cx, b) {
                return none;
            }
            let es = cx.children(b);
            let mut i: usize = es.len();
            while i > 0 && !cx.t.is_node(es[i - 1], SyntaxKind::Group)
                invariant
                    in_tree(cx.t, es@),
                    i <= es@.len(),
                    last_kid(cx.t, es@, SyntaxKind::Group, i as int) == last_kid(
                        cx.t,
                        es@,
                        SyntaxKind::Group,
                        es@.len() as int,
                    ),
                decreases i,
            {
                i = i - 1;
            }
            if i == 0 {
                return none;
            }
            match &cx.t.elems[es[i - 1]].facts.columns {
                Some(columns) => copy_aligns(columns),
                None => none,
            }
        },
        None => none,
    }
}

/// Whether the table has a row.
pub open spec fn has_row(items: Seq<Strip>) -> bool {
    exists|i: int| 0 <= i < items.len() && #[trigger] items[i] is Row
}

fn any_row(items: &Vec<GridItem>) -> (r: bool)
    ensures
        r == has_row(strips(items@)),
{
    let mut i: usize = 0;
    while i < items.len()
        invariant
            i <= items@.len(),
            forall|j: int| 0 <= j < i ==> !(#[trigger] strips(items@)[j] is Row),
        decreases items@.len() - i,
    {
        assert(strips(items@)[i as int] == items@[i as int]@);
        match &items[i] {
            GridItem::Row(_) => {
                return true;
            },
            GridItem::Passthrough(_) => {},
        }
        i = i + 1;
    }
    false
}

/// A body on lines of its own, one step deeper than its header and its end.
pub open spec fn indented_body(leading: Layout, begin: Layout, body: Layout, end: Layout) -> Layout {
    concat(seq![leading, begin, indent(concat2(Layout::HardLine, body)), Layout::HardLine, end])
}

fn indent_body(leading: Ir, begin: Ir, body: Ir, end: Ir) -> (r: Ir)
    ensures
        r@ == indented_body(leading@, begin@, body@, end@),
{
    let inner = Ir::indent(Ir::concat2(Ir::HardLine, body));
    let ghost all = seq![leading@, begin@, inner@, Layout::HardLine, end@];
    let mut out = IrList::new();
    out.push(leading);
    out.push(begin);
    out.push(inner);
    out.push(Ir::HardLine);
    out.push(end);
    assert(out@ =~= all);
    Ir::concat(out)
}

/// The body of an environment as a table. A body that is none, or that has no row, has no such
/// form.
pub open spec fn table_body(
    cx: LowerCtx,
    n: int,
    body: Seq<usize>,
    math: bool,
    soft: bool,
    lifted: Option<usize>,
    fuel: nat,
) -> Option<Layout>
    decreases fuel, 76int, 0int,
{
    match alignment_grid(cx.absorbing(body), body, math, soft, lifted, fuel) {
        Some(items) => if has_row(items) {
            Some(table(items, column_aligns(cx, n)))
        } else {
            None
        },
        None => None,
    }
}

fn lower_table_body(
    cx: LowerCtx,
    n: usize,
    body: &Vec<usize>,
    math: bool,
    soft: bool,
    lifted: Option<usize>,
    Ghost(fuel): Ghost<nat>,
) -> (r: Option<Ir>)
    requires
        cx.ok(),
        n < cx.t.n(),
        fits(cx.t, body@, fuel),
    ensures
        r is Some == table_body(cx, n as int, body@, math, soft, lifted, fuel) is Some,
        r matches Some(x) ==> table_body(cx, n as int, body@, math, soft, lifted, fuel) == Some(x@),
    decreases fuel, 76int, 0int,
{
    let body_cx = cx.absorbing_trailing_control_newline(body);
    match build_alignment_grid(body_cx, body, math, soft, lifted, Ghost(fuel)) {
        Some(items) => {
            if any_row(&items) {
                Some(render_alignment_rows(&items, &column_alignments(cx, n)))
            } else {
                None
            }
        },
        None => None,
    }
}

/// A table.
pub open spec fn aligned_environment(cx: LowerCtx, n: int, fuel: nat) -> Layout
    decreases fuel, 7int, 0int,
{
    if fuel == 0 {
        Layout::Nil
    } else {
        let s = env_split(cx, n, fuel);
        match table_body(
            cx,
            n,
            s.body,
            false,
            cx.in_doc_region && !is_math(cx, n),
            s.lifted,
            (fuel - 1) as nat,
        ) {
            Some(body) => indented_body(s.leading, s.begin, body, s.end),
            None => environment(cx, n, fuel),
        }
    }
}

pub fn lower_aligned_environment(cx: LowerCtx, n: usize, Ghost(fuel): Ghost<nat>) -> (r: Ir)
    requires
        cx.ok(),
        room(cx.t, n as int, fuel),
    ensures
        r@ == aligned_environment(cx, n as int, fuel),
    decreases fuel, 7int, 0int,
{
    let s = split_environment(cx, n, Ghost(fuel));
    let soft = cx.in_doc_region && !is_math_env(cx, n);
    match lower_table_body(cx, n, &s.body, false, soft, s.lifted, Ghost((fuel - 1) as nat)) {
        Some(body) => indent_body(s.leading, s.begin, body, s.end),
        None => lower_environment(cx, n, Ghost(fuel)),
    }
}

/// The first formula among the elements from `i` on.
pub open spec fn first_math(t: &Tree, es: Seq<usize>, i: int) -> Option<int>
    decreases es.len() - i,
{
    if i < 0 || i >= es.len() {
        None
    } else if t.node_is(es[i] as int, SyntaxKind::Math) {
        Some(i)
    } else {
        first_math(t, es, i + 1)
    }
}

fn find_math(cx: LowerCtx, es: &Vec<usize>) -> (r: Option<usize>)
    requires
        in_tree(cx.t, es@),
    ensures
        r is Some == first_math(cx.t, es@, 0) is Some,
        r matches Some(i) ==> first_math(cx.t, es@, 0) == Some(i as int) && i < es@.len(),
{
    let mut i: usize = 0;
    while i < es.len()
        invariant
            in_tree(cx.t, es@),
            i <= es@.len(),
            first_math(cx.t, es@, i as int) == first_math(cx.t, es@, 0),
        decreases es@.len() - i,
    {
        if cx.t.is_node(es[i], SyntaxKind::Math) {
            return Some(i);
        }
        i = i + 1;
    }
    None
}

/// A body with its formula opened and the lifted comment left out.
pub open spec fn formula_elements(t: &Tree, body: Seq<usize>, i: int, lifted: Option<usize>) -> Seq<usize> {
    let es = body.subrange(0, i) + t.kids(body[i] as int) + body.subrange(i + 1, body.len() as int);
    without_element(es, lifted, es.len() as int)
}

fn open_formula(cx: LowerCtx, body: &Vec<usize>, i: usize, lifted: Option<usize>, Ghost(fuel): Ghost<nat>) -> (r: Vec<usize>)
    requires
        cx.ok(),
        fits(cx.t, body@, fuel),
        i < body@.len(),
    ensures
        r@ == formula_elements(cx.t, body@, i as int, lifted),
        fits(cx.t, r@, fuel),
{
    assert(room(cx.t, body@[i as int] as int, fuel));
    let n: usize = body.len();
    let inner = cx.children(body[i]);
    let rest = part(body, i + 1, n);
    let mut es = part(body, 0, i);
    let ghost want = body@.subrange(0, i as int) + inner@ + rest@;
    let mut k: usize = 0;
    while k < inner.len()
        invariant
            k <= inner@.len(),
            fits(cx.t, inner@, fuel),
            fits(cx.t, es@, fuel),
            es@ =~= body@.subrange(0, i as int) + inner@.take(k as int),
        decreases inner@.len() - k,
    {
        assert(room(cx.t, inner@[k as int] as int, fuel));
        es.push(inner[k]);
        k = k + 1;
    }
    let mut k: usize = 0;
    while k < rest.len()
        invariant
            k <= rest@.len(),
            fits(cx.t, rest@, fuel),
            fits(cx.t, es@, fuel),
            es@ =~= body@.subrange(0, i as int) + inner@ + rest@.take(k as int),
        decreases rest@.len() - k,
    {
        assert(room(cx.t, rest@[k as int] as int, fuel));
        es.push(rest[k]);
        k = k + 1;
    }
    assert(es@ =~= want);
    drop_element(cx.t, &es, lifted, Ghost(fuel))
}

/// Whether a formula has tabs or line breaks.
pub open spec fn is_grid(t: &Tree, n: int) -> bool {
    any_kind(t, t.kids(n), SyntaxKind::Ampersand) || any_kind(t, t.kids(n), SyntaxKind::LineBreak)
}

/// One formula between the header and the end of its environment.
pub open spec fn formula_framed(s: EnvSplit, empty: bool, formula: Layout) -> Layout {
    if empty {
        concat4(s.leading, s.begin, Layout::HardLine, s.end)
    } else {
        indented_body(s.leading, s.begin, peel_back(formula).1, s.end)
    }
}

fn frame_formula(s: EnvParts, empty: bool, formula: &Ir) -> (r: Ir)
    ensures
        r@ == formula_framed(s.v(), empty, formula@),
{
    if empty {
        Ir::concat4(s.leading, s.begin, Ir::HardLine, s.end)
    } else {
        indent_body(s.leading, s.begin, trim_trailing_break(formula), s.end)
    }
}

/// The formula of an environment, and whether there is nothing in it.
pub open spec fn env_formula(cx: LowerCtx, s: EnvSplit, i: int, fuel: nat) -> (bool, Layout)
    decreases fuel, 77int, 0int,
{
    let es = formula_elements(cx.t, s.body, i, s.lifted);
    (all_gaps(cx.t, es), display_formula(cx.absorbing(s.body), es, fuel))
}

fn lower_env_formula(cx: LowerCtx, s: &EnvParts, i: usize, Ghost(fuel): Ghost<nat>) -> (r: (bool, Ir))
    requires
        cx.ok(),
        fits(cx.t, s.body@, fuel),
        i < s.body@.len(),
    ensures
        (r.0, r.1@) == env_formula(cx, s.v(), i as int, fuel),
    decreases fuel, 77int, 0int,
{
    let es = open_formula(cx, &s.body, i, s.lifted, Ghost(fuel));
    let empty = is_all_gaps(cx, &es);
    let body_cx = cx.absorbing_trailing_control_newline(&s.body);
    (empty, lower_display_formula_elements(body_cx, es, Ghost(fuel)))
}

/// A formula that is an environment: a table where it has tabs or line breaks, else one formula.
/// A table that is none has no such form.
pub open spec fn math_layout(cx: LowerCtx, n: int, s: EnvSplit, i: int, fuel: nat) -> Option<Layout>
    decreases fuel, 78int, 0int,
{
    if is_grid(cx.t, s.body[i] as int) {
        match table_body(cx, n, s.body, true, false, s.lifted, fuel) {
            Some(body) => Some(indented_body(s.leading, s.begin, body, s.end)),
            None => None,
        }
    } else {
        let (empty, formula) = env_formula(cx, s, i, fuel);
        Some(formula_framed(s, empty, formula))
    }
}

fn lower_math_layout(cx: LowerCtx, n: usize, s: EnvParts, i: usize, Ghost(fuel): Ghost<nat>) -> (r: Option<Ir>)
    requires
        cx.ok(),
        n < cx.t.n(),
        fits(cx.t, s.body@, fuel),
        i < s.body@.len(),
    ensures
        r is Some == math_layout(cx, n as int, s.v(), i as int, fuel) is Some,
        r matches Some(x) ==> math_layout(cx, n as int, s.v(), i as int, fuel) == Some(x@),
    decreases fuel, 78int, 0int,
{
    assert(room(cx.t, s.body@[i as int] as int, fuel));
    let inner = cx.children(s.body[i]);
    if has_kind(cx, &inner, SyntaxKind::Ampersand) || has_kind(cx, &inner, SyntaxKind::LineBreak) {
        match lower_table_body(cx, n, &s.body, true, false, s.lifted, Ghost(fuel)) {
            Some(body) => Some(indent_body(s.leading, s.begin, body, s.end)),
            None => None,
        }
    } else {
        let (empty, formula) = lower_env_formula(cx, &s, i, Ghost(fuel));
        Some(frame_formula(s, empty, &formula))
    }
}

/// A formula that is an environment.
pub open spec fn math_environment(cx: LowerCtx, n: int, fuel: nat) -> Layout
    decreases fuel, 7int, 0int,
{
    if fuel == 0 {
        Layout::Nil
    } else {
        let s = env_split(cx, n, fuel);
        let l = match first_math(cx.t, s.body, 0) {
            Some(i) => math_layout(cx, n, s, i, (fuel - 1) as nat),
            None => None,
        };
        match l {
            Some(l) => l,
            None => environment(cx, n, fuel),
        }
    }
}

pub fn lower_math_environment(cx: LowerCtx, n: usize, Ghost(fuel): Ghost<nat>) -> (r: Ir)
    requires
        cx.ok(),
        room(cx.t, n as int, fuel),
    ensures
        r@ == math_environment(cx, n as int, fuel),
    decreases fuel, 7int, 0int,
{
    let s = split_environment(cx, n, Ghost(fuel));
    let ir = match find_math(cx, &s.body) {
        Some(i) => lower_math_layout(cx, n, s, i, Ghost((fuel - 1) as nat)),
        None => None,
    };
    match ir {
        Some(ir) => ir,
        None => lower_environment(cx, n, Ghost(fuel)),
    }
}

} // verus!

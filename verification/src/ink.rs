//! The ink of a text: what is left of it without its white space. Laying a document out moves
//! white space, and nothing else; in a documented source it may also move margins.

use vstd::prelude::*;

use crate::finish::{finished, respelled, spelled, tidied};
use crate::ir::{
    flat_joined, flat_spaced, flat_text, forces_break, layouts, lemma_list_view, lemma_preferred_view, Ir, Layout,
};
use crate::settings::LineEnding;
use crate::text::{chars_of, strip_end, white, CharSet};

verus! {

/// Whether a character counts as ink. Where `margins` holds, the percent sign that a margin is
/// made of does not.
pub open spec fn is_ink(c: char, margins: bool) -> bool {
    !white(c) && !(margins && c == '%')
}

fn counts(c: char, margins: bool) -> (r: bool)
    ensures
        r == is_ink(c, margins),
{
    !CharSet::White.contains(c) && !(margins && c == '%')
}

/// The characters of a text that are ink, in order.
pub open spec fn ink(text: Seq<char>, margins: bool) -> Seq<char>
    decreases text.len(),
{
    if text.len() == 0 {
        Seq::empty()
    } else if is_ink(text.last(), margins) {
        ink(text.drop_last(), margins).push(text.last())
    } else {
        ink(text.drop_last(), margins)
    }
}

/// The ink of two texts, one behind the other, is that of the first and that of the second.
pub proof fn ink_of_a_sum(a: Seq<char>, b: Seq<char>, margins: bool)
    ensures
        ink(a + b, margins) == ink(a, margins) + ink(b, margins),
    decreases b.len(),
{
    if b.len() == 0 {
        assert(a + b =~= a);
        assert(ink(a, margins) + ink(b, margins) =~= ink(a, margins));
    } else {
        assert((a + b).drop_last() =~= a + b.drop_last());
        assert((a + b).last() == b.last());
        ink_of_a_sum(a, b.drop_last(), margins);
        assert(ink(a + b, margins) =~= ink(a, margins) + ink(b, margins));
    }
}

pub(crate) proof fn lemma_ink_of_one(c: char, margins: bool)
    ensures
        ink(seq![c], margins) == (if is_ink(c, margins) { seq![c] } else { Seq::empty() }),
{
    assert(seq![c].drop_last() =~= Seq::<char>::empty());
    reveal_with_fuel(ink, 2);
    assert(ink(seq![c], margins) =~= (if is_ink(c, margins) { seq![c] } else { Seq::empty() }));
}

/// The characters of a text that are ink.
pub(crate) fn ink_chars(text: &str, margins: bool) -> (r: Vec<char>)
    ensures
        r@ == ink(text@, margins),
{
    let all = chars_of(text);
    let mut out: Vec<char> = Vec::new();
    let mut i: usize = 0;
    while i < all.len()
        invariant
            all@ == text@,
            i <= all.len(),
            out@ == ink(text@.take(i as int), margins),
        decreases all.len() - i,
    {
        assert(text@.take(i + 1).drop_last() =~= text@.take(i as int));
        if counts(all[i], margins) {
            out.push(all[i]);
        }
        i = i + 1;
    }
    assert(text@.take(i as int) =~= text@);
    out
}

pub(crate) fn same_chars(a: &Vec<char>, b: &Vec<char>) -> (r: bool)
    ensures
        r == (a@ == b@),
{
    if a.len() != b.len() {
        return false;
    }
    let mut i: usize = 0;
    while i < a.len()
        invariant
            a.len() == b.len(),
            i <= a.len(),
            forall|k: int| 0 <= k < i ==> a@[k] == b@[k],
        decreases a.len() - i,
    {
        if a[i] != b[i] {
            return false;
        }
        i = i + 1;
    }
    assert(a@ =~= b@);
    true
}

/// Whether two texts have the same ink.
pub fn has_ink_of(text: &str, source: &str, margins: bool) -> (r: bool)
    ensures
        r == (ink(text@, margins) == ink(source@, margins)),
{
    same_chars(&ink_chars(text, margins), &ink_chars(source, margins))
}

/// Whether a text has a line break behind its first `p` characters of ink, and before the next.
pub open spec fn breaks_at(text: Seq<char>, p: int, margins: bool) -> bool {
    exists|k: int| 0 <= k < text.len() && #[trigger] text[k] == '\n' && ink(text.take(k), margins).len() == p
}

pub(crate) proof fn lemma_breaks_in_first(a: Seq<char>, b: Seq<char>, p: int, margins: bool)
    requires
        breaks_at(a, p, margins),
    ensures
        breaks_at(a + b, p, margins),
{
    let k = choose|k: int| 0 <= k < a.len() && #[trigger] a[k] == '\n' && ink(a.take(k), margins).len() == p;
    assert((a + b)[k] == '\n');
    assert((a + b).take(k) =~= a.take(k));
}

pub(crate) proof fn lemma_breaks_in_second(a: Seq<char>, b: Seq<char>, p: int, margins: bool)
    requires
        breaks_at(b, p, margins),
    ensures
        breaks_at(a + b, ink(a, margins).len() + p, margins),
{
    let k = choose|k: int| 0 <= k < b.len() && #[trigger] b[k] == '\n' && ink(b.take(k), margins).len() == p;
    assert((a + b)[a.len() + k] == '\n');
    assert((a + b).take(a.len() + k) =~= a + b.take(k));
    ink_of_a_sum(a, b.take(k), margins);
}

// ---- the forms of a layout -----------------------------------------------------------------

/// Whether every form that a layout may be printed in has the same ink: wherever it leaves a
/// choice, what is chosen from has, and no margin that is put before its lines has any.
pub open spec fn forms_agree(l: Layout, margins: bool) -> bool
    decreases l,
{
    match l {
        Layout::Concat(items) => all_agree(items, margins),
        Layout::Fill(items) => all_agree(items, margins),
        Layout::HugFill(items) => all_agree(items, margins),
        Layout::StickyFill(items) => all_agree(items, margins),
        Layout::PreferredFill { atoms, preferred: _, target: _ } => all_agree(atoms, margins),
        Layout::Candidates(items) => all_agree(items, margins) && one_ink(items, margins),
        Layout::Group(body) => forms_agree(*body, margins),
        Layout::HugGroup(body) => forms_agree(*body, margins),
        Layout::Indent(body) => forms_agree(*body, margins),
        Layout::AlignCurrent(body) => forms_agree(*body, margins),
        Layout::DocMargin(body) => forms_agree(*body, margins),
        Layout::Align { width: _, body } => forms_agree(*body, margins),
        Layout::BoundedAlign { aligned, hanging } => forms_agree(*aligned, margins) && forms_agree(*hanging, margins) && ink(
            flat_text(*aligned),
            margins,
        ) == ink(flat_text(*hanging), margins),
        Layout::IfBreak { flat, broken } => forms_agree(*flat, margins) && forms_agree(*broken, margins) && ink(
            flat_text(*flat),
            margins,
        ) == ink(flat_text(*broken), margins),
        Layout::MarginPrefix { margin, body } => forms_agree(*body, margins) && ink(margin, margins).len() == 0,
        _ => true,
    }
}

/// Whether that holds of each piece of a list.
pub open spec fn all_agree(items: Seq<Layout>, margins: bool) -> bool
    decreases items,
{
    items.len() > 0 ==> all_agree(items.drop_last(), margins) && forms_agree(items.last(), margins)
}

/// Whether the pieces of a list all have the ink of the first.
pub open spec fn one_ink(items: Seq<Layout>, margins: bool) -> bool {
    forall|k: int|
        0 <= k < items.len() ==> ink(flat_text(#[trigger] items[k]), margins) == ink(flat_text(items[0]), margins)
}

/// Whether a text is what a gap is printed as: a line break, or `flat` unless the line is broken.
pub open spec fn reads_gap(flat: Seq<char>, broken: bool, text: Seq<char>) -> bool {
    text == seq!['\n'] || (!broken && text == flat)
}

/// Whether the pieces of a list may be printed as a text, one after the other.
pub open spec fn list_reads(items: Seq<Layout>, broken: bool, text: Seq<char>) -> bool
    decreases items,
{
    if items.len() == 0 {
        text.len() == 0
    } else {
        exists|k: int|
            0 <= k <= text.len() && list_reads(items.drop_last(), broken, #[trigger] text.take(k)) && reads(
                items.last(),
                broken,
                text.skip(k),
            )
    }
}

/// The same, with a gap between neighbours.
pub open spec fn words_read(items: Seq<Layout>, text: Seq<char>) -> bool
    decreases items,
{
    if items.len() == 0 {
        text.len() == 0
    } else if items.len() == 1 {
        reads(items.last(), false, text)
    } else {
        exists|k: int|
            0 <= k < text.len() && words_read(items.drop_last(), #[trigger] text.take(k)) && (text[k] == ' ' || text[k]
                == '\n') && reads(items.last(), false, text.skip(k + 1))
    }
}

/// Whether a layout may be printed as a text. `broken` holds where the gaps around it are broken
/// for certain: a group that holds a forced break is never flat. Indentation, and the margins that
/// are put before lines, are left out of the text.
pub open spec fn reads(l: Layout, broken: bool, text: Seq<char>) -> bool
    decreases l,
{
    match l {
        Layout::Nil => text.len() == 0,
        Layout::Text(own) => text == own,
        Layout::ZeroWidth(own) => text == own,
        Layout::ColumnZero(own) => text == own,
        Layout::Verbatim { text: own, force_break: _ } => text == own,
        Layout::SoftLine => reads_gap(Seq::empty(), broken, text),
        Layout::TightLine => reads_gap(Seq::empty(), broken, text),
        Layout::Line => reads_gap(seq![' '], broken, text),
        Layout::HardLine => text == seq!['\n'],
        Layout::EmptyLine => text == seq!['\n', '\n'],
        Layout::Concat(items) => list_reads(items, broken, text),
        Layout::HugFill(items) => list_reads(items, false, text),
        Layout::StickyFill(items) => list_reads(items, false, text),
        Layout::Fill(items) => words_read(items, text),
        Layout::PreferredFill { atoms, preferred: _, target: _ } => words_read(atoms, text),
        Layout::Candidates(items) => any_reads(items, broken, text),
        Layout::Group(body) => reads(*body, forces_break(*body), text),
        Layout::HugGroup(body) => reads(*body, false, text),
        Layout::Indent(body) => reads(*body, broken, text),
        Layout::AlignCurrent(body) => reads(*body, broken, text),
        Layout::DocMargin(body) => reads(*body, broken, text),
        Layout::Align { width: _, body } => reads(*body, broken, text),
        Layout::BoundedAlign { aligned, hanging } => reads(*aligned, broken, text) || reads(*hanging, broken, text),
        Layout::IfBreak { flat, broken: apart } => reads(*apart, broken, text) || (!broken && reads(*flat, broken, text)),
        Layout::MarginPrefix { margin: _, body } => reads(*body, broken, text),
    }
}

/// Whether one of the pieces may be printed as a text.
pub open spec fn any_reads(items: Seq<Layout>, broken: bool, text: Seq<char>) -> bool
    decreases items,
{
    items.len() > 0 && (any_reads(items.drop_last(), broken, text) || reads(items.last(), broken, text))
}

proof fn lemma_agreeing(items: Seq<Layout>, margins: bool, k: int)
    requires
        all_agree(items, margins),
        0 <= k < items.len(),
    ensures
        forms_agree(items[k], margins),
    decreases items.len(),
{
    assert(items.last() == items[items.len() - 1]);
    if k < items.len() - 1 {
        lemma_agreeing(items.drop_last(), margins, k);
    }
}

proof fn lemma_list_ink(items: Seq<Layout>, broken: bool, text: Seq<char>, margins: bool)
    requires
        all_agree(items, margins),
        list_reads(items, broken, text),
    ensures
        ink(text, margins) == ink(flat_joined(items), margins),
    decreases items, 0int,
{
    if items.len() > 0 {
        let head = items.drop_last();
        let last = items.last();
        let k = choose|k: int|
            0 <= k <= text.len() && list_reads(head, broken, #[trigger] text.take(k)) && reads(last, broken, text.skip(k));
        lemma_list_ink(head, broken, text.take(k), margins);
        every_form_has_the_ink(last, broken, text.skip(k), margins);
        assert(text =~= text.take(k) + text.skip(k));
        ink_of_a_sum(text.take(k), text.skip(k), margins);
        ink_of_a_sum(flat_joined(head), flat_text(last), margins);
    }
}

proof fn lemma_words_ink(items: Seq<Layout>, text: Seq<char>, margins: bool)
    requires
        all_agree(items, margins),
        words_read(items, text),
    ensures
        ink(text, margins) == ink(flat_spaced(items), margins),
    decreases items, 0int,
{
    if items.len() == 1 {
        every_form_has_the_ink(items.last(), false, text, margins);
    } else if items.len() > 1 {
        let head = items.drop_last();
        let last = items.last();
        let k = choose|k: int|
            0 <= k < text.len() && words_read(head, #[trigger] text.take(k)) && (text[k] == ' ' || text[k] == '\n')
                && reads(last, false, text.skip(k + 1));
        lemma_words_ink(head, text.take(k), margins);
        every_form_has_the_ink(last, false, text.skip(k + 1), margins);
        lemma_split_at_gap(text, k, margins);
        let spaced = flat_spaced(head).push(' ');
        assert(spaced.drop_last() =~= flat_spaced(head));
        ink_of_a_sum(spaced, flat_text(last), margins);
    }
}

proof fn lemma_split_at_gap(text: Seq<char>, k: int, margins: bool)
    requires
        0 <= k < text.len(),
        text[k] == ' ' || text[k] == '\n',
    ensures
        ink(text, margins) == ink(text.take(k), margins) + ink(text.skip(k + 1), margins),
        text == text.take(k + 1) + text.skip(k + 1),
        ink(text.take(k + 1), margins) == ink(text.take(k), margins),
{
    assert(text =~= text.take(k + 1) + text.skip(k + 1));
    ink_of_a_sum(text.take(k + 1), text.skip(k + 1), margins);
    assert(text.take(k + 1).drop_last() =~= text.take(k));
    assert(text.take(k + 1).last() == text[k]);
}

proof fn lemma_any_ink(items: Seq<Layout>, broken: bool, text: Seq<char>, margins: bool, n: int)
    requires
        all_agree(items, margins),
        one_ink(items, margins),
        0 <= n <= items.len(),
        any_reads(items.take(n), broken, text),
    ensures
        ink(text, margins) == ink(flat_text(items[0]), margins),
        items.len() > 0,
    decreases items, n,
{
    let head = items.take(n);
    assert(head.len() > 0);
    assert(head.drop_last() =~= items.take(n - 1));
    assert(head.last() == items[n - 1]);
    if reads(items[n - 1], broken, text) {
        lemma_agreeing(items, margins, n - 1);
        every_form_has_the_ink(items[n - 1], broken, text, margins);
    } else {
        lemma_any_ink(items, broken, text, margins, n - 1);
    }
}

/// In whatever form a layout is printed, it has the ink that it has on one line, where its forms
/// agree.
pub proof fn every_form_has_the_ink(l: Layout, broken: bool, text: Seq<char>, margins: bool)
    requires
        forms_agree(l, margins),
        reads(l, broken, text),
    ensures
        ink(text, margins) == ink(flat_text(l), margins),
    decreases l, 0int,
{
    lemma_ink_of_one(' ', margins);
    lemma_ink_of_one('\n', margins);
    assert(text.len() == 0 ==> text =~= Seq::<char>::empty());
    match l {
        Layout::EmptyLine => {
            ink_of_a_sum(seq!['\n'], seq!['\n'], margins);
            assert(seq!['\n'] + seq!['\n'] =~= seq!['\n', '\n']);
        },
        Layout::Concat(items) => lemma_list_ink(items, broken, text, margins),
        Layout::HugFill(items) => lemma_list_ink(items, false, text, margins),
        Layout::StickyFill(items) => lemma_list_ink(items, false, text, margins),
        Layout::Fill(items) => lemma_words_ink(items, text, margins),
        Layout::PreferredFill { atoms, preferred: _, target: _ } => lemma_words_ink(atoms, text, margins),
        Layout::Candidates(items) => {
            assert(items.take(items.len() as int) =~= items);
            lemma_any_ink(items, broken, text, margins, items.len() as int);
        },
        Layout::Group(body) => every_form_has_the_ink(*body, forces_break(*body), text, margins),
        Layout::HugGroup(body) => every_form_has_the_ink(*body, false, text, margins),
        Layout::Indent(body) => every_form_has_the_ink(*body, broken, text, margins),
        Layout::AlignCurrent(body) => every_form_has_the_ink(*body, broken, text, margins),
        Layout::DocMargin(body) => every_form_has_the_ink(*body, broken, text, margins),
        Layout::Align { width: _, body } => every_form_has_the_ink(*body, broken, text, margins),
        Layout::BoundedAlign { aligned, hanging } => if reads(*aligned, broken, text) {
            every_form_has_the_ink(*aligned, broken, text, margins);
        } else {
            every_form_has_the_ink(*hanging, broken, text, margins);
        },
        Layout::IfBreak { flat, broken: apart } => if reads(*apart, broken, text) {
            every_form_has_the_ink(*apart, broken, text, margins);
        } else {
            every_form_has_the_ink(*flat, broken, text, margins);
        },
        Layout::MarginPrefix { margin: _, body } => every_form_has_the_ink(*body, broken, text, margins),
        _ => {},
    }
}

// ---- checking that the forms agree ---------------------------------------------------------

fn list_agrees(items: &Vec<Ir>, margins: bool) -> (b: bool)
    ensures
        b == all_agree(layouts(items@), margins),
    decreases items, 0int,
{
    let mut i: usize = 0;
    let mut agree = true;
    while i < items.len()
        invariant
            i <= items.len(),
            agree == all_agree(layouts(items@).take(i as int), margins),
        decreases items.len() - i,
    {
        assert(decreases_to!(items => items@[i as int]));
        assert(layouts(items@).take(i as int + 1).drop_last() =~= layouts(items@).take(i as int));
        let here = forms_have_one_ink(&items[i], margins);
        agree = agree && here;
        i = i + 1;
    }
    assert(layouts(items@).take(i as int) =~= layouts(items@));
    agree
}

fn same_ink(a: &Ir, b: &Ir, margins: bool) -> (r: bool)
    ensures
        r == (ink(flat_text(a@), margins) == ink(flat_text(b@), margins)),
{
    let x = a.print_flat();
    let y = b.print_flat();
    has_ink_of(x.as_str(), y.as_str(), margins)
}

fn list_has_one_ink(items: &Vec<Ir>, margins: bool) -> (b: bool)
    ensures
        b == one_ink(layouts(items@), margins),
{
    let mut i: usize = 0;
    while i < items.len()
        invariant
            i <= items.len(),
            forall|k: int|
                0 <= k < i ==> ink(flat_text(#[trigger] layouts(items@)[k]), margins) == ink(
                    flat_text(layouts(items@)[0]),
                    margins,
                ),
        decreases items.len() - i,
    {
        if !same_ink(&items[i], &items[0], margins) {
            assert(ink(flat_text(layouts(items@)[i as int]), margins) != ink(flat_text(layouts(items@)[0]), margins));
            return false;
        }
        i = i + 1;
    }
    true
}

/// Whether every form that a layout may be printed in has the same ink.
pub fn forms_have_one_ink(ir: &Ir, margins: bool) -> (b: bool)
    ensures
        b == forms_agree(ir@, margins),
    decreases ir, 1int,
{
    proof {
        match ir {
            Ir::Concat(items) => lemma_list_view(*items),
            Ir::Fill(items) => lemma_list_view(*items),
            Ir::HugFill(items) => lemma_list_view(*items),
            Ir::StickyFill(items) => lemma_list_view(*items),
            Ir::Candidates(items) => lemma_list_view(*items),
            Ir::PreferredFill { atoms, preferred, target } => lemma_preferred_view(*atoms, *preferred, *target),
            _ => {},
        }
    }
    match ir {
        Ir::Concat(items) => list_agrees(items, margins),
        Ir::Fill(items) => list_agrees(items, margins),
        Ir::HugFill(items) => list_agrees(items, margins),
        Ir::StickyFill(items) => list_agrees(items, margins),
        Ir::PreferredFill { atoms, preferred: _, target: _ } => list_agrees(atoms, margins),
        Ir::Candidates(items) => list_agrees(items, margins) && list_has_one_ink(items, margins),
        Ir::Group(body) => forms_have_one_ink(body, margins),
        Ir::HugGroup(body) => forms_have_one_ink(body, margins),
        Ir::Indent(body) => forms_have_one_ink(body, margins),
        Ir::AlignCurrent(body) => forms_have_one_ink(body, margins),
        Ir::DocMargin(body) => forms_have_one_ink(body, margins),
        Ir::Align { width: _, body } => forms_have_one_ink(body, margins),
        Ir::BoundedAlign { aligned, hanging } => forms_have_one_ink(aligned, margins) && forms_have_one_ink(hanging, margins)
            && same_ink(aligned, hanging, margins),
        Ir::IfBreak { flat, broken } => forms_have_one_ink(flat, margins) && forms_have_one_ink(broken, margins)
            && same_ink(flat, broken, margins),
        Ir::MarginPrefix { margin, body } => forms_have_one_ink(body, margins) && ink_chars(margin.as_str(), margins).len()
            == 0,
        _ => true,
    }
}

// ---- where every form breaks ---------------------------------------------------------------

/// The line breaks of a text, each by the ink before it, which `base` is added to.
pub open spec fn text_breaks(text: Seq<char>, base: int, margins: bool) -> Seq<int>
    decreases text.len(),
{
    if text.len() == 0 {
        Seq::empty()
    } else if text.last() == '\n' {
        text_breaks(text.drop_last(), base, margins).push(base + ink(text.drop_last(), margins).len())
    } else {
        text_breaks(text.drop_last(), base, margins)
    }
}

/// What two lists have in common.
pub open spec fn common(a: Seq<int>, b: Seq<int>) -> Seq<int>
    decreases a.len(),
{
    if a.len() == 0 {
        a
    } else if b.contains(a.last()) {
        common(a.drop_last(), b).push(a.last())
    } else {
        common(a.drop_last(), b)
    }
}

/// The line breaks that a list of pieces is printed with in any form.
pub open spec fn list_breaks(items: Seq<Layout>, broken: bool, base: int, margins: bool) -> Seq<int>
    decreases items,
{
    if items.len() == 0 {
        Seq::empty()
    } else {
        list_breaks(items.drop_last(), broken, base, margins) + sure_breaks(
            items.last(),
            broken,
            base + ink(flat_joined(items.drop_last()), margins).len(),
            margins,
        )
    }
}

/// The line breaks that are common to all of the pieces.
pub open spec fn shared_breaks(items: Seq<Layout>, broken: bool, base: int, margins: bool) -> Seq<int>
    decreases items,
{
    if items.len() == 0 {
        Seq::empty()
    } else if items.len() == 1 {
        sure_breaks(items.last(), broken, base, margins)
    } else {
        common(
            shared_breaks(items.drop_last(), broken, base, margins),
            sure_breaks(items.last(), broken, base, margins),
        )
    }
}

/// The line breaks that a layout is printed with in any form, each by the ink before it, which
/// `base` is added to.
pub open spec fn sure_breaks(l: Layout, broken: bool, base: int, margins: bool) -> Seq<int>
    decreases l,
{
    match l {
        Layout::Nil => Seq::empty(),
        Layout::Text(text) => text_breaks(text, base, margins),
        Layout::ZeroWidth(text) => text_breaks(text, base, margins),
        Layout::ColumnZero(text) => text_breaks(text, base, margins),
        Layout::Verbatim { text, force_break: _ } => text_breaks(text, base, margins),
        Layout::SoftLine => if broken { seq![base] } else { Seq::empty() },
        Layout::TightLine => if broken { seq![base] } else { Seq::empty() },
        Layout::Line => if broken { seq![base] } else { Seq::empty() },
        Layout::HardLine => seq![base],
        Layout::EmptyLine => seq![base],
        Layout::Concat(items) => list_breaks(items, broken, base, margins),
        Layout::HugFill(items) => list_breaks(items, false, base, margins),
        Layout::StickyFill(items) => list_breaks(items, false, base, margins),
        Layout::Fill(items) => list_breaks(items, false, base, margins),
        Layout::PreferredFill { atoms, preferred: _, target: _ } => list_breaks(atoms, false, base, margins),
        Layout::Candidates(items) => shared_breaks(items, broken, base, margins),
        Layout::Group(body) => sure_breaks(*body, forces_break(*body), base, margins),
        Layout::HugGroup(body) => sure_breaks(*body, false, base, margins),
        Layout::Indent(body) => sure_breaks(*body, broken, base, margins),
        Layout::AlignCurrent(body) => sure_breaks(*body, broken, base, margins),
        Layout::DocMargin(body) => sure_breaks(*body, broken, base, margins),
        Layout::Align { width: _, body } => sure_breaks(*body, broken, base, margins),
        Layout::BoundedAlign { aligned, hanging } => common(
            sure_breaks(*aligned, broken, base, margins),
            sure_breaks(*hanging, broken, base, margins),
        ),
        Layout::IfBreak { flat, broken: apart } => if broken {
            sure_breaks(*apart, broken, base, margins)
        } else {
            common(sure_breaks(*apart, broken, base, margins), sure_breaks(*flat, broken, base, margins))
        },
        Layout::MarginPrefix { margin: _, body } => sure_breaks(*body, broken, base, margins),
    }
}

proof fn lemma_common(a: Seq<int>, b: Seq<int>, p: int)
    ensures
        common(a, b).contains(p) <==> a.contains(p) && b.contains(p),
    decreases a.len(),
{
    if a.len() > 0 {
        let head = a.drop_last();
        lemma_common(head, b, p);
        let rest = common(head, b);
        assert(a.contains(p) <==> head.contains(p) || p == a.last()) by {
            if a.contains(p) {
                let k = choose|k: int| 0 <= k < a.len() && a[k] == p;
                if k < head.len() {
                    assert(head[k] == p);
                }
            }
            if head.contains(p) {
                let k = choose|k: int| 0 <= k < head.len() && head[k] == p;
                assert(a[k] == p);
            }
            if p == a.last() {
                assert(a[a.len() - 1] == p);
            }
        }
        assert(rest.push(a.last()).contains(p) <==> rest.contains(p) || p == a.last()) by {
            let all = rest.push(a.last());
            if all.contains(p) {
                let k = choose|k: int| 0 <= k < all.len() && all[k] == p;
                if k < rest.len() {
                    assert(rest[k] == p);
                }
            }
            if rest.contains(p) {
                let k = choose|k: int| 0 <= k < rest.len() && rest[k] == p;
                assert(all[k] == p);
            }
            if p == a.last() {
                assert(all[rest.len() as int] == p);
            }
        }
    }
}

proof fn lemma_in_sum(a: Seq<int>, b: Seq<int>, p: int)
    ensures
        (a + b).contains(p) <==> a.contains(p) || b.contains(p),
{
    if (a + b).contains(p) {
        let k = choose|k: int| 0 <= k < (a + b).len() && (a + b)[k] == p;
        if k < a.len() {
            assert(a[k] == p);
        } else {
            assert(b[k - a.len()] == p);
        }
    }
    if a.contains(p) {
        let k = choose|k: int| 0 <= k < a.len() && a[k] == p;
        assert((a + b)[k] == p);
    }
    if b.contains(p) {
        let k = choose|k: int| 0 <= k < b.len() && b[k] == p;
        assert((a + b)[a.len() + k] == p);
    }
}

/// A text has a line break behind `p` characters of ink exactly where its list says so.
pub proof fn text_breaks_are_its_own(text: Seq<char>, base: int, margins: bool, p: int)
    ensures
        text_breaks(text, base, margins).contains(base + p) <==> breaks_at(text, p, margins),
    decreases text.len(),
{
    if text.len() > 0 {
        let head = text.drop_last();
        text_breaks_are_its_own(head, base, margins, p);
        let rest = text_breaks(head, base, margins);
        let own = base + ink(head, margins).len();
        if text.last() == '\n' {
            lemma_in_sum(rest, seq![own], base + p);
            assert(rest + seq![own] =~= rest.push(own));
            assert(seq![own].contains(base + p) <==> own == base + p) by {
                assert(seq![own][0] == own);
            }
        }
        if breaks_at(text, p, margins) {
            let k = choose|k: int| 0 <= k < text.len() && #[trigger] text[k] == '\n' && ink(text.take(k), margins).len() == p;
            if k < head.len() {
                assert(head[k] == '\n');
                assert(head.take(k) =~= text.take(k));
            } else {
                assert(text.take(k) =~= head);
            }
        }
        if breaks_at(head, p, margins) {
            assert(text =~= head + seq![text.last()]);
            lemma_breaks_in_first(head, seq![text.last()], p, margins);
        }
        if text.last() == '\n' && ink(head, margins).len() == p {
            assert(text[text.len() - 1] == '\n');
            assert(text.take(text.len() - 1) =~= head);
        }
    }
}

proof fn lemma_list_break(items: Seq<Layout>, broken: bool, base: int, text: Seq<char>, margins: bool, p: int)
    requires
        all_agree(items, margins),
        list_reads(items, broken, text),
        list_breaks(items, broken, base, margins).contains(base + p),
    ensures
        breaks_at(text, p, margins),
    decreases items, 0int,
{
    assert(items.len() > 0) by {
        if items.len() == 0 {
            assert(list_breaks(items, broken, base, margins) =~= Seq::<int>::empty());
        }
    }
    let head = items.drop_last();
    let last = items.last();
    let k = choose|k: int|
        0 <= k <= text.len() && list_reads(head, broken, #[trigger] text.take(k)) && reads(last, broken, text.skip(k));
    let (a, b) = (text.take(k), text.skip(k));
    assert(text =~= a + b);
    lemma_list_ink(head, broken, a, margins);
    let before = ink(a, margins).len();
    lemma_in_sum(
        list_breaks(head, broken, base, margins),
        sure_breaks(last, broken, base + before, margins),
        base + p,
    );
    if list_breaks(head, broken, base, margins).contains(base + p) {
        lemma_list_break(head, broken, base, a, margins, p);
        lemma_breaks_in_first(a, b, p, margins);
    } else {
        assert(base + p == (base + before) + (p - before));
        every_form_breaks(last, broken, base + before, b, margins, p - before);
        lemma_breaks_in_second(a, b, p - before, margins);
    }
}

proof fn lemma_words_break(items: Seq<Layout>, base: int, text: Seq<char>, margins: bool, p: int)
    requires
        all_agree(items, margins),
        words_read(items, text),
        list_breaks(items, false, base, margins).contains(base + p),
    ensures
        breaks_at(text, p, margins),
    decreases items, 0int,
{
    assert(items.len() > 0) by {
        if items.len() == 0 {
            assert(list_breaks(items, false, base, margins) =~= Seq::<int>::empty());
        }
    }
    let head = items.drop_last();
    let last = items.last();
    let before = ink(flat_joined(head), margins).len();
    lemma_in_sum(
        list_breaks(head, false, base, margins),
        sure_breaks(last, false, base + before, margins),
        base + p,
    );
    if items.len() == 1 {
        assert(list_breaks(head, false, base, margins) =~= Seq::<int>::empty());
        assert(flat_joined(head) =~= Seq::<char>::empty());
        every_form_breaks(last, false, base, text, margins, p);
    } else {
        let k = choose|k: int|
            0 <= k < text.len() && words_read(head, #[trigger] text.take(k)) && (text[k] == ' ' || text[k] == '\n')
                && reads(last, false, text.skip(k + 1));
        lemma_split_at_gap(text, k, margins);
        lemma_words_ink(head, text.take(k), margins);
        lemma_spaced_ink(head, margins);
        let (a, b) = (text.take(k + 1), text.skip(k + 1));
        if list_breaks(head, false, base, margins).contains(base + p) {
            lemma_words_break(head, base, text.take(k), margins, p);
            lemma_breaks_in_first(text.take(k), text.skip(k), p, margins);
            assert(text.take(k) + text.skip(k) =~= text);
        } else {
            assert(base + p == (base + before) + (p - before));
            every_form_breaks(last, false, base + before, b, margins, p - before);
            lemma_breaks_in_second(a, b, p - before, margins);
        }
    }
}

proof fn lemma_spaced_ink(items: Seq<Layout>, margins: bool)
    ensures
        ink(flat_spaced(items), margins) == ink(flat_joined(items), margins),
    decreases items.len(),
{
    if items.len() > 0 {
        let head = items.drop_last();
        lemma_spaced_ink(head, margins);
        ink_of_a_sum(flat_joined(head), flat_text(items.last()), margins);
        let spaced = flat_spaced(head).push(' ');
        assert(spaced.drop_last() =~= flat_spaced(head));
        ink_of_a_sum(spaced, flat_text(items.last()), margins);
        if items.len() == 1 {
            assert(flat_joined(head) =~= Seq::<char>::empty());
            assert(flat_joined(items) =~= flat_text(items.last()));
        }
    }
}

proof fn lemma_any_break(items: Seq<Layout>, broken: bool, base: int, text: Seq<char>, margins: bool, p: int, n: int)
    requires
        all_agree(items, margins),
        0 <= n <= items.len(),
        any_reads(items.take(n), broken, text),
        shared_breaks(items.take(n), broken, base, margins).contains(base + p),
    ensures
        breaks_at(text, p, margins),
    decreases items, n,
{
    let head = items.take(n);
    assert(head.len() > 0);
    assert(head.drop_last() =~= items.take(n - 1));
    assert(head.last() == items[n - 1]);
    let last = items[n - 1];
    if n > 1 {
        lemma_common(
            shared_breaks(items.take(n - 1), broken, base, margins),
            sure_breaks(last, broken, base, margins),
            base + p,
        );
    }
    if reads(last, broken, text) {
        lemma_agreeing(items, margins, n - 1);
        every_form_breaks(last, broken, base, text, margins, p);
    } else {
        assert(any_reads(head.drop_last(), broken, text));
        assert(n > 1) by {
            if n == 1 {
                assert(head.drop_last().len() == 0);
            }
        }
        lemma_any_break(items, broken, base, text, margins, p, n - 1);
    }
}

/// In whatever form a layout is printed, it breaks where every form does.
pub proof fn every_form_breaks(l: Layout, broken: bool, base: int, text: Seq<char>, margins: bool, p: int)
    requires
        forms_agree(l, margins),
        reads(l, broken, text),
        sure_breaks(l, broken, base, margins).contains(base + p),
    ensures
        breaks_at(text, p, margins),
    decreases l, 0int,
{
    text_breaks_are_its_own(text, base, margins, p);
    let one = seq!['\n'];
    assert(one[0] == '\n' && one.take(0) =~= Seq::<char>::empty());
    assert(breaks_at(one, 0, margins));
    match l {
        Layout::EmptyLine => {
            assert(one + one =~= seq!['\n', '\n']);
            lemma_breaks_in_first(one, one, 0, margins);
        },
        Layout::Concat(items) => lemma_list_break(items, broken, base, text, margins, p),
        Layout::HugFill(items) => lemma_list_break(items, false, base, text, margins, p),
        Layout::StickyFill(items) => lemma_list_break(items, false, base, text, margins, p),
        Layout::Fill(items) => lemma_words_break(items, base, text, margins, p),
        Layout::PreferredFill { atoms, preferred: _, target: _ } => lemma_words_break(atoms, base, text, margins, p),
        Layout::Candidates(items) => {
            assert(items.take(items.len() as int) =~= items);
            lemma_any_break(items, broken, base, text, margins, p, items.len() as int);
        },
        Layout::Group(body) => every_form_breaks(*body, forces_break(*body), base, text, margins, p),
        Layout::HugGroup(body) => every_form_breaks(*body, false, base, text, margins, p),
        Layout::Indent(body) => every_form_breaks(*body, broken, base, text, margins, p),
        Layout::AlignCurrent(body) => every_form_breaks(*body, broken, base, text, margins, p),
        Layout::DocMargin(body) => every_form_breaks(*body, broken, base, text, margins, p),
        Layout::Align { width: _, body } => every_form_breaks(*body, broken, base, text, margins, p),
        Layout::BoundedAlign { aligned, hanging } => {
            lemma_common(
                sure_breaks(*aligned, broken, base, margins),
                sure_breaks(*hanging, broken, base, margins),
                base + p,
            );
            if reads(*aligned, broken, text) {
                every_form_breaks(*aligned, broken, base, text, margins, p);
            } else {
                every_form_breaks(*hanging, broken, base, text, margins, p);
            }
        },
        Layout::IfBreak { flat, broken: apart } => {
            lemma_common(
                sure_breaks(*apart, broken, base, margins),
                sure_breaks(*flat, broken, base, margins),
                base + p,
            );
            if reads(*apart, broken, text) {
                every_form_breaks(*apart, broken, base, text, margins, p);
            } else {
                every_form_breaks(*flat, broken, base, text, margins, p);
            }
        },
        Layout::MarginPrefix { margin: _, body } => every_form_breaks(*body, broken, base, text, margins, p),
        _ => {},
    }
}

/// A list of places in the ink of a text.
pub open spec fn places(list: Seq<usize>) -> Seq<int> {
    Seq::new(list.len(), |k: int| list[k] as int)
}

/// What is found of a layout: its line breaks, and the place behind its ink.
struct Found {
    breaks: Vec<usize>,
    end: usize,
}

fn find_text_breaks(text: &str, base: usize, margins: bool) -> (r: Found)
    requires
        base + ink(text@, margins).len() <= usize::MAX,
    ensures
        places(r.breaks@) == text_breaks(text@, base as int, margins),
        r.end == base + ink(text@, margins).len(),
{
    let all = chars_of(text);
    let mut breaks: Vec<usize> = Vec::new();
    let mut at: usize = base;
    let mut i: usize = 0;
    assert(places(breaks@) =~= text_breaks(text@.take(0), base as int, margins));
    while i < all.len()
        invariant
            all@ == text@,
            i <= all.len(),
            base + ink(text@, margins).len() <= usize::MAX,
            at == base + ink(text@.take(i as int), margins).len(),
            places(breaks@) == text_breaks(text@.take(i as int), base as int, margins),
        decreases all.len() - i,
    {
        proof {
            assert(text@.take(i + 1).drop_last() =~= text@.take(i as int));
            assert(text@ =~= text@.take(i + 1) + text@.skip(i + 1));
            ink_of_a_sum(text@.take(i + 1), text@.skip(i + 1), margins);
        }
        if all[i] == '\n' {
            let ghost before = breaks@;
            breaks.push(at);
            assert(places(breaks@) =~= places(before).push(at as int));
        }
        if counts(all[i], margins) {
            at = at + 1;
        }
        i = i + 1;
    }
    assert(text@.take(i as int) =~= text@);
    Found { breaks, end: at }
}

pub(crate) fn has_place(list: &Vec<usize>, p: usize) -> (r: bool)
    ensures
        r == places(list@).contains(p as int),
{
    let mut i: usize = 0;
    while i < list.len()
        invariant
            i <= list.len(),
            forall|k: int| 0 <= k < i ==> list@[k] != p,
        decreases list.len() - i,
    {
        if list[i] == p {
            assert(places(list@)[i as int] == p);
            return true;
        }
        i = i + 1;
    }
    assert forall|k: int| 0 <= k < places(list@).len() implies places(list@)[k] != p as int by {}
    false
}

fn keep_common(a: &Vec<usize>, b: &Vec<usize>) -> (r: Vec<usize>)
    ensures
        places(r@) == common(places(a@), places(b@)),
{
    let mut out: Vec<usize> = Vec::new();
    let mut i: usize = 0;
    assert(places(out@) =~= common(places(a@).take(0), places(b@)));
    while i < a.len()
        invariant
            i <= a.len(),
            places(out@) == common(places(a@).take(i as int), places(b@)),
        decreases a.len() - i,
    {
        assert(places(a@).take(i + 1).drop_last() =~= places(a@).take(i as int));
        if has_place(b, a[i]) {
            let ghost before = out@;
            out.push(a[i]);
            assert(places(out@) =~= places(before).push(a@[i as int] as int));
        }
        i = i + 1;
    }
    assert(places(a@).take(i as int) =~= places(a@));
    out
}

fn find_list_breaks(items: &Vec<Ir>, broken: bool, base: usize, margins: bool) -> (r: Found)
    requires
        all_agree(layouts(items@), margins),
        base + ink(flat_joined(layouts(items@)), margins).len() <= usize::MAX,
    ensures
        places(r.breaks@) == list_breaks(layouts(items@), broken, base as int, margins),
        r.end == base + ink(flat_joined(layouts(items@)), margins).len(),
    decreases items, 0int,
{
    let ghost all = layouts(items@);
    let mut breaks: Vec<usize> = Vec::new();
    let mut at: usize = base;
    let mut i: usize = 0;
    assert(places(breaks@) =~= list_breaks(all.take(0), broken, base as int, margins));
    while i < items.len()
        invariant
            i <= items.len(),
            all == layouts(items@),
            all_agree(all, margins),
            base + ink(flat_joined(all), margins).len() <= usize::MAX,
            at == base + ink(flat_joined(all.take(i as int)), margins).len(),
            places(breaks@) == list_breaks(all.take(i as int), broken, base as int, margins),
        decreases items.len() - i,
    {
        assert(decreases_to!(items => items@[i as int]));
        let ghost head = all.take(i as int);
        let ghost more = all.take(i + 1);
        proof {
            assert(more.drop_last() =~= head);
            assert(more.last() == items@[i as int]@);
            lemma_agreeing(all, margins, i as int);
            ink_of_a_sum(flat_joined(head), flat_text(more.last()), margins);
            lemma_joined_ink_grows(all, i + 1, margins);
        }
        let mut found = find_breaks(&items[i], broken, at, margins);
        let ghost before = breaks@;
        let ghost fresh = found.breaks@;
        breaks.append(&mut found.breaks);
        assert(places(breaks@) =~= places(before) + places(fresh));
        at = found.end;
        i = i + 1;
    }
    assert(all.take(i as int) =~= all);
    Found { breaks, end: at }
}

proof fn lemma_joined_ink_grows(items: Seq<Layout>, n: int, margins: bool)
    requires
        0 <= n <= items.len(),
    ensures
        ink(flat_joined(items.take(n)), margins).len() <= ink(flat_joined(items), margins).len(),
    decreases items.len() - n,
{
    if n == items.len() {
        assert(items.take(n) =~= items);
    } else {
        let more = items.take(n + 1);
        assert(more.drop_last() =~= items.take(n));
        ink_of_a_sum(flat_joined(items.take(n)), flat_text(more.last()), margins);
        lemma_joined_ink_grows(items, n + 1, margins);
    }
}

fn find_shared_breaks(items: &Vec<Ir>, broken: bool, base: usize, margins: bool) -> (r: Found)
    requires
        all_agree(layouts(items@), margins),
        one_ink(layouts(items@), margins),
        items@.len() > 0,
        base + ink(flat_text(layouts(items@)[0]), margins).len() <= usize::MAX,
    ensures
        places(r.breaks@) == shared_breaks(layouts(items@), broken, base as int, margins),
        r.end == base + ink(flat_text(layouts(items@)[0]), margins).len(),
    decreases items, 0int,
{
    let ghost all = layouts(items@);
    assert(decreases_to!(items => items@[0]));
    proof {
        lemma_agreeing(all, margins, 0);
        assert(all.take(1).last() == all[0]);
    }
    let mut found = find_breaks(&items[0], broken, base, margins);
    let mut i: usize = 1;
    while i < items.len()
        invariant
            1 <= i <= items.len(),
            all == layouts(items@),
            all_agree(all, margins),
            one_ink(all, margins),
            base + ink(flat_text(all[0]), margins).len() <= usize::MAX,
            places(found.breaks@) == shared_breaks(all.take(i as int), broken, base as int, margins),
            found.end == base + ink(flat_text(all[0]), margins).len(),
        decreases items.len() - i,
    {
        assert(decreases_to!(items => items@[i as int]));
        proof {
            lemma_agreeing(all, margins, i as int);
            assert(all.take(i + 1).drop_last() =~= all.take(i as int));
            assert(all.take(i + 1).last() == all[i as int]);
        }
        let other = find_breaks(&items[i], broken, base, margins);
        found = Found { breaks: keep_common(&found.breaks, &other.breaks), end: found.end };
        i = i + 1;
    }
    assert(all.take(i as int) =~= all);
    found
}

fn find_gap(broken: bool, base: usize) -> (r: Found)
    ensures
        places(r.breaks@) == (if broken { seq![base as int] } else { Seq::<int>::empty() }),
        r.end == base,
{
    let mut breaks: Vec<usize> = Vec::new();
    if broken {
        breaks.push(base);
    }
    assert(places(breaks@) =~= (if broken { seq![base as int] } else { Seq::<int>::empty() }));
    Found { breaks, end: base }
}

/// The line breaks that a layout is printed with in any form.
#[verifier::spinoff_prover]
fn find_breaks(ir: &Ir, broken: bool, base: usize, margins: bool) -> (r: Found)
    requires
        forms_agree(ir@, margins),
        base + ink(flat_text(ir@), margins).len() <= usize::MAX,
    ensures
        places(r.breaks@) == sure_breaks(ir@, broken, base as int, margins),
        r.end == base + ink(flat_text(ir@), margins).len(),
    decreases ir, 1int,
{
    proof {
        lemma_ink_of_one(' ', margins);
        match ir {
            Ir::Concat(items) => lemma_list_view(*items),
            Ir::Fill(items) => {
                lemma_list_view(*items);
                lemma_spaced_ink(layouts(items@), margins);
            },
            Ir::HugFill(items) => lemma_list_view(*items),
            Ir::StickyFill(items) => lemma_list_view(*items),
            Ir::Candidates(items) => lemma_list_view(*items),
            Ir::PreferredFill { atoms, preferred, target } => {
                lemma_preferred_view(*atoms, *preferred, *target);
                lemma_spaced_ink(layouts(atoms@), margins);
            },
            _ => {},
        }
    }
    match ir {
        Ir::Nil => {
            assert(ir@ == Layout::Nil);
            find_gap(false, base)
        },
        Ir::Text(text) => find_text_breaks(text.as_str(), base, margins),
        Ir::ZeroWidth(text) => find_text_breaks(text.as_str(), base, margins),
        Ir::ColumnZero(text) => find_text_breaks(text.as_str(), base, margins),
        Ir::Verbatim { text, force_break: _ } => find_text_breaks(text.as_str(), base, margins),
        Ir::SoftLine => find_gap(broken, base),
        Ir::TightLine => find_gap(broken, base),
        Ir::Line => find_gap(broken, base),
        Ir::HardLine => find_gap(true, base),
        Ir::EmptyLine => find_gap(true, base),
        Ir::Concat(items) => find_list_breaks(items, broken, base, margins),
        Ir::HugFill(items) => find_list_breaks(items, false, base, margins),
        Ir::StickyFill(items) => find_list_breaks(items, false, base, margins),
        Ir::Fill(items) => find_list_breaks(items, false, base, margins),
        Ir::PreferredFill { atoms, preferred: _, target: _ } => find_list_breaks(atoms, false, base, margins),
        Ir::Candidates(items) => {
            if items.len() > 0 {
                find_shared_breaks(items, broken, base, margins)
            } else {
                find_gap(false, base)
            }
        },
        Ir::Group(body) => find_breaks(body, body.contains_forced_break(), base, margins),
        Ir::HugGroup(body) => find_breaks(body, false, base, margins),
        Ir::Indent(body) => find_breaks(body, broken, base, margins),
        Ir::AlignCurrent(body) => find_breaks(body, broken, base, margins),
        Ir::DocMargin(body) => find_breaks(body, broken, base, margins),
        Ir::Align { width: _, body } => find_breaks(body, broken, base, margins),
        Ir::BoundedAlign { aligned, hanging } => {
            let a = find_breaks(aligned, broken, base, margins);
            let b = find_breaks(hanging, broken, base, margins);
            Found { breaks: keep_common(&a.breaks, &b.breaks), end: a.end }
        },
        Ir::IfBreak { flat, broken: apart } => {
            let a = find_breaks(apart, broken, base, margins);
            if broken {
                a
            } else {
                let b = find_breaks(flat, broken, base, margins);
                Found { breaks: keep_common(&a.breaks, &b.breaks), end: a.end }
            }
        },
        Ir::MarginPrefix { margin: _, body } => find_breaks(body, broken, base, margins),
    }
}

/// The line breaks that a layout of a document is printed with in any form, each by the ink before
/// it.
pub(crate) fn document_breaks(ir: &Ir, margins: bool) -> (r: Vec<usize>)
    requires
        forms_agree(ir@, margins),
        ink(flat_text(ir@), margins).len() <= usize::MAX,
    ensures
        places(r@) == sure_breaks(ir@, true, 0, margins),
{
    find_breaks(ir, true, 0, margins).breaks
}

// ---- finishing -----------------------------------------------------------------------------

proof fn lemma_strip_ink(text: Seq<char>, set: CharSet, margins: bool)
    ensures
        ink(strip_end(text, set), margins) == ink(text, margins),
    decreases text.len(),
{
    if text.len() > 0 && set.has(text.last()) {
        lemma_strip_ink(text.drop_last(), set, margins);
    }
}

proof fn lemma_respelled_ink(text: Seq<char>, ending: LineEnding, margins: bool)
    ensures
        ink(respelled(text, ending), margins) == ink(text, margins),
    decreases text.len(),
{
    lemma_ink_of_one('\n', margins);
    lemma_ink_of_one('\r', margins);
    ink_of_a_sum(seq!['\r'], seq!['\n'], margins);
    assert(seq!['\r'] + seq!['\n'] =~= seq!['\r', '\n']);
    assert(ink(spelled(ending), margins) =~= Seq::<char>::empty());
    if text.len() > 0 {
        if text.len() > 1 && text[0] == '\r' && text[1] == '\n' {
            assert(text =~= seq!['\r', '\n'] + text.skip(2));
            lemma_respelled_ink(text.skip(2), ending, margins);
            ink_of_a_sum(seq!['\r', '\n'], text.skip(2), margins);
            ink_of_a_sum(spelled(ending), respelled(text.skip(2), ending), margins);
        } else {
            assert(text =~= seq![text[0]] + text.skip(1));
            lemma_respelled_ink(text.skip(1), ending, margins);
            ink_of_a_sum(seq![text[0]], text.skip(1), margins);
            ink_of_a_sum(spelled(ending), respelled(text.skip(1), ending), margins);
            ink_of_a_sum(seq![text[0]], respelled(text.skip(1), ending), margins);
        }
    }
}

/// Finishing a printed text changes its white space only.
pub proof fn finishing_keeps_the_ink(text: Seq<char>, fragment: bool, ending: LineEnding, margins: bool)
    ensures
        ink(finished(text, fragment, ending), margins) == ink(text, margins),
{
    lemma_strip_ink(text, CharSet::Blanks, margins);
    let kept = strip_end(text, CharSet::Blanks);
    assert(kept.push('\n').drop_last() =~= kept);
    lemma_respelled_ink(tidied(text, fragment), ending, margins);
}

} // verus!

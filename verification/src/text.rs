//! Reading and cutting text.

use smol_str::SmolStr;
use vstd::prelude::*;

verus! {

/// Whether a character is white space in the sense of Unicode: it has the property `White_Space`.
pub open spec fn white(c: char) -> bool {
    ||| '\u{9}' <= c <= '\u{d}'
    ||| c == ' '
    ||| c == '\u{85}'
    ||| c == '\u{a0}'
    ||| c == '\u{1680}'
    ||| '\u{2000}' <= c <= '\u{200a}'
    ||| c == '\u{2028}'
    ||| c == '\u{2029}'
    ||| c == '\u{202f}'
    ||| c == '\u{205f}'
    ||| c == '\u{3000}'
}

/// [`char::is_whitespace`]: the characters with the Unicode property `White_Space`, and no others.
#[verifier::external_body]
fn char_is_whitespace(c: char) -> (r: bool)
    ensures
        r == white(c),
{
    c.is_whitespace()
}

/// Whether a character is a letter in the sense of Unicode.
pub uninterp spec fn alphabetic(c: char) -> bool;

/// [`char::is_alphabetic`]: the answer depends on the character alone.
#[verifier::external_body]
pub(crate) fn char_is_alphabetic(c: char) -> (r: bool)
    ensures
        r == alphabetic(c),
{
    c.is_alphabetic()
}

/// What a text reads in lower case.
pub uninterp spec fn lower(text: Seq<char>) -> Seq<char>;

/// [`str::to_lowercase`]: the result depends on the text alone.
#[verifier::external_body]
pub(crate) fn to_lowercase(text: &str) -> (r: String)
    ensures
        r@ == lower(text@),
{
    text.to_lowercase()
}

/// Equality of string slices: they are equal when they hold the same characters.
#[verifier::external_body]
pub(crate) fn str_eq(a: &str, b: &str) -> (r: bool)
    ensures
        r == (a@ == b@),
{
    a == b
}

/// The string type of the outside crate, carried as it is.
#[verifier::external_type_specification]
#[verifier::external_body]
pub struct ExSmolStr(SmolStr);

/// The characters that a small string holds.
pub uninterp spec fn small(text: SmolStr) -> Seq<char>;

/// [`SmolStr::new`] holds the characters that it was given.
#[verifier::external_body]
pub(crate) fn small_string(text: &str) -> (r: SmolStr)
    ensures
        small(r) == text@,
{
    SmolStr::new(text)
}

/// [`SmolStr::as_str`] gives the characters that the string holds.
#[verifier::external_body]
pub(crate) fn small_str(text: &SmolStr) -> (r: &str)
    ensures
        r@ == small(*text),
{
    text.as_str()
}

/// A set of characters that text is cut by.
#[derive(Clone, Copy, Debug, PartialEq, Eq, Structural)]
pub enum CharSet {
    /// White space in the sense of Unicode.
    White,
    /// The carriage return and the line feed.
    LineBreaks,
    /// Space, tab, line feed and carriage return.
    Blanks,
}

impl CharSet {
    pub open spec fn has(self, c: char) -> bool {
        match self {
            CharSet::White => white(c),
            CharSet::LineBreaks => c == '\r' || c == '\n',
            CharSet::Blanks => c == ' ' || c == '\t' || c == '\n' || c == '\r',
        }
    }

    pub fn contains(self, c: char) -> (r: bool)
        ensures
            r == self.has(c),
    {
        match self {
            CharSet::White => char_is_whitespace(c),
            CharSet::LineBreaks => c == '\r' || c == '\n',
            CharSet::Blanks => c == ' ' || c == '\t' || c == '\n' || c == '\r',
        }
    }
}

/// The text without the characters of `set` at its start.
pub open spec fn strip_start(text: Seq<char>, set: CharSet) -> Seq<char>
    decreases text.len(),
{
    if text.len() > 0 && set.has(text[0]) {
        strip_start(text.drop_first(), set)
    } else {
        text
    }
}

/// The text without the characters of `set` at its end.
pub open spec fn strip_end(text: Seq<char>, set: CharSet) -> Seq<char>
    decreases text.len(),
{
    if text.len() > 0 && set.has(text.last()) {
        strip_end(text.drop_last(), set)
    } else {
        text
    }
}

/// The text without white space at either end.
pub open spec fn trimmed(text: Seq<char>) -> Seq<char> {
    strip_end(strip_start(text, CharSet::White), CharSet::White)
}

/// The characters of a text.
pub fn chars_of(text: &str) -> (r: Vec<char>)
    ensures
        r@ == text@,
{
    let mut out: Vec<char> = Vec::new();
    for c in it: text.chars()
        invariant
            it.seq() == text@,
            out@ == text@.take(it.index()),
    {
        assert(text@.take(it.index() + 1) =~= text@.take(it.index()).push(text@[it.index()]));
        out.push(c);
    }
    assert(text@.take(text@.len() as int) =~= text@);
    out
}

/// The text without the characters of `set` at its start.
pub fn trim_start<'a>(text: &'a str, set: CharSet) -> (r: &'a str)
    ensures
        r@ == strip_start(text@, set),
{
    let chars = chars_of(text);
    let n: usize = chars.len();
    let mut i: usize = 0;
    assert(text@.skip(0) =~= text@);
    while i < n && set.contains(chars[i])
        invariant
            n == chars@.len(),
            chars@ == text@,
            i <= n,
            strip_start(text@.skip(i as int), set) == strip_start(text@, set),
        decreases n - i,
    {
        assert(text@.skip(i as int).drop_first() =~= text@.skip(i as int + 1));
        i = i + 1;
    }
    assert(text@.skip(i as int) =~= text@.subrange(i as int, n as int));
    text.substring_char(i, n)
}

/// The text without the characters of `set` at its end.
pub fn trim_end<'a>(text: &'a str, set: CharSet) -> (r: &'a str)
    ensures
        r@ == strip_end(text@, set),
{
    let chars = chars_of(text);
    let mut n: usize = chars.len();
    assert(text@.take(n as int) =~= text@);
    while n > 0 && set.contains(chars[n - 1])
        invariant
            n <= chars@.len(),
            chars@ == text@,
            strip_end(text@.take(n as int), set) == strip_end(text@, set),
        decreases n,
    {
        assert(text@.take(n as int).drop_last() =~= text@.take(n as int - 1));
        n = n - 1;
    }
    assert(text@.take(n as int) =~= text@.subrange(0, n as int));
    text.substring_char(0, n)
}

/// The text without white space at either end.
pub fn trim<'a>(text: &'a str) -> (r: &'a str)
    ensures
        r@ == trimmed(text@),
{
    trim_end(trim_start(text, CharSet::White), CharSet::White)
}

/// Whether `text` ends in `tail`.
pub open spec fn has_tail(text: Seq<char>, tail: Seq<char>) -> bool {
    text.len() >= tail.len() && text.skip(text.len() - tail.len()) == tail
}

/// Whether `text` ends in `tail`.
pub fn ends_with(text: &str, tail: &str) -> (r: bool)
    ensures
        r == has_tail(text@, tail@),
{
    let n: usize = text.unicode_len();
    let m: usize = tail.unicode_len();
    if n < m {
        return false;
    }
    assert(text@.skip(n - m) =~= text@.subrange(n - m, n as int));
    str_eq(text.substring_char(n - m, n), tail)
}

/// Whether `text` starts with `lead`.
pub open spec fn has_lead(text: Seq<char>, lead: Seq<char>) -> bool {
    text.len() >= lead.len() && text.take(lead.len() as int) == lead
}

/// Whether `text` starts with `lead`.
pub fn starts_with(text: &str, lead: &str) -> (r: bool)
    ensures
        r == has_lead(text@, lead@),
{
    let n: usize = text.unicode_len();
    let m: usize = lead.unicode_len();
    if n < m {
        return false;
    }
    assert(text@.take(m as int) =~= text@.subrange(0, m as int));
    str_eq(text.substring_char(0, m), lead)
}

/// Whether the character stands somewhere in the text.
pub fn contains_char(text: &str, wanted: char) -> (r: bool)
    ensures
        r == text@.contains(wanted),
{
    let mut found = false;
    for c in it: text.chars()
        invariant
            it.seq() == text@,
            found == text@.take(it.index()).contains(wanted),
    {
        proof {
            let before = text@.take(it.index());
            let after = text@.take(it.index() + 1);
            assert(after =~= before.push(text@[it.index()]));
            if before.contains(wanted) {
                let k = choose|k: int| 0 <= k < before.len() && before[k] == wanted;
                assert(after[k] == wanted);
            }
            assert(after[it.index()] == text@[it.index()]);
        }
        found = found || c == wanted;
    }
    assert(text@.take(text@.len() as int) =~= text@);
    found
}

/// The pieces of a text between the characters `sep`.
pub open spec fn split(text: Seq<char>, sep: char) -> Seq<Seq<char>>
    decreases text.len(),
{
    if text.len() == 0 {
        seq![text]
    } else if text.last() == sep {
        split(text.drop_last(), sep).push(Seq::empty())
    } else {
        let parts = split(text.drop_last(), sep);
        parts.update(parts.len() - 1, parts.last().push(text.last()))
    }
}

/// Whether `part` stands somewhere in `text`.
pub open spec fn has_part(text: Seq<char>, part: Seq<char>) -> bool {
    exists|i: int| 0 <= i && i + part.len() <= text.len() && #[trigger] text.subrange(i, i + part.len()) == part
}

/// Whether `part` stands somewhere in `text`.
pub fn contains_text(text: &str, part: &str) -> (r: bool)
    ensures
        r == has_part(text@, part@),
{
    let n: usize = text.unicode_len();
    let m: usize = part.unicode_len();
    if n < m {
        return false;
    }
    let mut i: usize = 0;
    while i <= n - m
        invariant
            n == text@.len(),
            m == part@.len(),
            m <= n,
            i <= n - m + 1,
            forall|j: int| 0 <= j < i ==> #[trigger] text@.subrange(j, j + m) != part@,
        decreases n - m + 1 - i,
    {
        if str_eq(text.substring_char(i, i + m), part) {
            assert(text@.subrange(i as int, i + m) == part@);
            return true;
        }
        if i == n - m {
            return false;
        }
        i = i + 1;
    }
    false
}

/// Where the line that `i` is on ends: at its line feed, or at the end of the text.
pub open spec fn line_end(text: Seq<char>, i: int) -> int
    decreases text.len() - i,
{
    if 0 <= i < text.len() && text[i] != '\n' {
        line_end(text, i + 1)
    } else {
        i
    }
}

/// A line ends behind its start and within the text.
pub proof fn lemma_line_end(text: Seq<char>, i: int)
    ensures
        line_end(text, i) >= i,
        i <= text.len() ==> line_end(text, i) <= text.len(),
    decreases text.len() - i,
{
    if 0 <= i < text.len() && text[i] != '\n' {
        lemma_line_end(text, i + 1);
    }
}

/// Where the characters of a line end: a carriage return before the line feed is none of them.
pub open spec fn line_stop(text: Seq<char>, i: int) -> int {
    let end = line_end(text, i);
    if i < end < text.len() && text[end - 1] == '\r' {
        end - 1
    } else {
        end
    }
}

/// The lines of a text from `i` on. There is none behind a line feed at the very end.
pub open spec fn lines_from(text: Seq<char>, i: int) -> Seq<Seq<char>>
    decreases text.len() - i,
{
    if i < 0 || i >= text.len() {
        Seq::empty()
    } else {
        proof {
            lemma_line_end(text, i);
        }
        let line = seq![text.subrange(i, line_stop(text, i))];
        if line_end(text, i) < text.len() {
            line + lines_from(text, line_end(text, i) + 1)
        } else {
            line
        }
    }
}

/// The line that starts at `i`, and where the next one starts.
pub fn line_at<'a>(text: &'a str, i: usize) -> (r: (&'a str, usize))
    requires
        i < text@.len(),
    ensures
        r.0@ == text@.subrange(i as int, line_stop(text@, i as int)),
        r.1 == line_end(text@, i as int) + 1 || (r.1 == text@.len() && line_end(text@, i as int) == text@.len()),
        i < r.1 <= text@.len(),
{
    let n: usize = text.unicode_len();
    let mut end: usize = i;
    while end < n && text.get_char(end) != '\n'
        invariant
            n == text@.len(),
            i <= end <= n,
            line_end(text@, end as int) == line_end(text@, i as int),
        decreases n - end,
    {
        end = end + 1;
    }
    let stop: usize = if i < end && end < n && text.get_char(end - 1) == '\r' {
        end - 1
    } else {
        end
    };
    (text.substring_char(i, stop), if end < n { end + 1 } else { n })
}

/// Whether every line that is not empty starts with `lead`, and `saw` or one of them is there.
pub open spec fn lines_lead(lines: Seq<Seq<char>>, lead: Seq<char>) -> bool {
    (exists|i: int| 0 <= i < lines.len() && (#[trigger] lines[i]).len() > 0) && forall|i: int|
        0 <= i < lines.len() && (#[trigger] lines[i]).len() > 0 ==> has_lead(lines[i], lead)
}

/// Whether the text has a line that is not empty, and each such line is a guard.
pub open spec fn fully_guarded(text: Seq<char>) -> bool {
    lines_lead(lines_from(text, 0), "%<"@)
}

/// Whether the text has a line that is not empty, and each such line is a guard.
pub fn text_is_fully_guarded(text: &str) -> (r: bool)
    ensures
        r == fully_guarded(text@),
{
    let n: usize = text.unicode_len();
    let mut saw = false;
    let mut i: usize = 0;
    let ghost mut done: Seq<Seq<char>> = Seq::empty();
    let ghost all = lines_from(text@, 0);
    assert(done + all =~= all);
    while i < n
        invariant
            n == text@.len(),
            i <= n,
            all == lines_from(text@, 0),
            all == done + lines_from(text@, i as int),
            saw == exists|k: int| 0 <= k < done.len() && (#[trigger] done[k]).len() > 0,
            forall|k: int| 0 <= k < done.len() && (#[trigger] done[k]).len() > 0 ==> has_lead(done[k], "%<"@),
        decreases n - i,
    {
        let (line, next) = line_at(text, i);
        let ghost before = done;
        let ghost rest = lines_from(text@, next as int);
        proof {
            lemma_line_end(text@, i as int);
            done = before.push(line@);
            assert(all =~= done + rest);
            assert(all[before.len() as int] == line@);
        }
        if !line.is_empty() {
            if !starts_with(line, "%<") {
                return false;
            }
            saw = true;
            assert(done[before.len() as int].len() > 0);
        }
        proof {
            assert forall|k: int| 0 <= k < before.len() implies done[k] == before[k] by {}
            if exists|k: int| 0 <= k < before.len() && (#[trigger] before[k]).len() > 0 {
                let k = choose|k: int| 0 <= k < before.len() && (#[trigger] before[k]).len() > 0;
                assert(done[k].len() > 0);
            }
        }
        i = next;
    }
    assert(all =~= done);
    saw
}

// ---- numbers -------------------------------------------------------------------------------

pub open spec fn is_digit(c: char) -> bool {
    '0' <= c <= '9'
}

/// The number that a row of digits writes.
pub open spec fn digits_value(text: Seq<char>) -> int
    decreases text.len(),
{
    if text.len() == 0 {
        0
    } else {
        10 * digits_value(text.drop_last()) + (text.last() as int - '0' as int)
    }
}

/// The digits of a number that may have a plus sign.
pub open spec fn unsigned_digits(text: Seq<char>) -> Seq<char> {
    if text.len() > 0 && text[0] == '+' {
        text.drop_first()
    } else {
        text
    }
}

/// The number that a text is: digits and nothing else, with or without a plus sign, and not
/// more than a machine can hold.
pub open spec fn number(text: Seq<char>) -> Option<usize> {
    let digits = unsigned_digits(text);
    if digits.len() > 0 && (forall|i: int| 0 <= i < digits.len() ==> is_digit(#[trigger] digits[i])) && digits_value(
        digits,
    ) <= usize::MAX {
        Some(digits_value(digits) as usize)
    } else {
        None
    }
}

proof fn lemma_value_grows(text: Seq<char>, i: int)
    requires
        0 <= i <= text.len(),
        forall|j: int| 0 <= j < text.len() ==> is_digit(#[trigger] text[j]),
    ensures
        0 <= digits_value(text.take(i)) <= digits_value(text),
    decreases text.len(), text.len() - i,
{
    if i == text.len() {
        assert(text.take(i) =~= text);
        if text.len() > 0 {
            let rest = text.drop_last();
            assert(rest.take(rest.len() as int) =~= rest);
            lemma_value_grows(rest, rest.len() as int);
        }
    } else {
        let rest = text.drop_last();
        assert(rest.take(i) =~= text.take(i));
        lemma_value_grows(rest, i);
    }
}

/// The number that a text is.
pub fn parse_number(text: &str) -> (r: Option<usize>)
    ensures
        r == number(text@),
{
    let chars = chars_of(text);
    let n: usize = chars.len();
    let lo: usize = if n > 0 && chars[0] == '+' {
        1
    } else {
        0
    };
    let ghost digits = unsigned_digits(text@);
    assert(digits =~= text@.skip(lo as int));
    if lo == n {
        return None;
    }
    let mut value: usize = 0;
    let mut i: usize = lo;
    assert(digits.take(0) =~= Seq::<char>::empty());
    while i < n
        invariant
            lo <= i <= n,
            lo < n,
            n == chars@.len(),
            chars@ == text@,
            digits == text@.skip(lo as int),
            digits == unsigned_digits(text@),
            forall|j: int| 0 <= j < i - lo ==> is_digit(#[trigger] digits[j]),
            value == digits_value(digits.take(i - lo)),
        decreases n - i,
    {
        let c = chars[i];
        assert(digits[i - lo] == c);
        if c < '0' || c > '9' {
            return None;
        }
        let d: usize = (c as u32 - '0' as u32) as usize;
        let ghost longer = digits.take(i - lo + 1);
        assert(longer.drop_last() =~= digits.take(i - lo));
        assert(longer.last() == c);
        if value > (usize::MAX - d) / 10 {
            proof {
                assert(digits_value(longer) == 10 * value + d);
                assert(10 * value + d > usize::MAX);
                if number(text@) is Some {
                    lemma_value_grows(digits, i - lo + 1);
                }
            }
            return None;
        }
        value = value * 10 + d;
        i = i + 1;
    }
    assert(digits.take(n - lo) =~= digits);
    Some(value)
}

} // verus!

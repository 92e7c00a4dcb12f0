//! The text of a layout once it has been printed: its end is tidied, and its line breaks are
//! spelled as the document spells them.

use vstd::prelude::*;

use crate::settings::LineEnding;
use crate::text::{chars_of, strip_end, trim_end, CharSet};

verus! {

/// A line break, spelled out. A spelling that is still open is that of the line feed.
pub open spec fn spelled(ending: LineEnding) -> Seq<char> {
    if ending == LineEnding::Crlf {
        seq!['\r', '\n']
    } else {
        seq!['\n']
    }
}

/// The text with each of its line breaks, whether it has a carriage return or not, spelled anew.
pub open spec fn respelled(text: Seq<char>, ending: LineEnding) -> Seq<char>
    decreases text.len(),
{
    if text.len() == 0 {
        Seq::empty()
    } else if text.len() > 1 && text[0] == '\r' && text[1] == '\n' {
        spelled(ending) + respelled(text.skip(2), ending)
    } else if text[0] == '\n' {
        spelled(ending) + respelled(text.skip(1), ending)
    } else {
        seq![text[0]] + respelled(text.skip(1), ending)
    }
}

/// The text without blanks at its end, and with one line feed behind what is left unless it is
/// a fragment.
pub open spec fn tidied(text: Seq<char>, fragment: bool) -> Seq<char> {
    let kept = strip_end(text, CharSet::Blanks);
    if fragment || kept.len() == 0 {
        kept
    } else {
        kept.push('\n')
    }
}

/// What a printed text comes to.
pub open spec fn finished(text: Seq<char>, fragment: bool, ending: LineEnding) -> Seq<char> {
    respelled(tidied(text, fragment), ending)
}

fn line_break(ending: LineEnding) -> (r: &'static str)
    ensures
        r@ == spelled(ending),
{
    proof {
        reveal_strlit("\r\n");
        reveal_strlit("\n");
    }
    let r = if ending == LineEnding::Crlf {
        "\r\n"
    } else {
        "\n"
    };
    assert(r@ =~= spelled(ending));
    r
}

/// Spells each line break of the text anew.
pub fn apply_line_ending(text: &str, ending: LineEnding) -> (r: String)
    ensures
        r@ == respelled(text@, ending),
{
    let chars = chars_of(text);
    let n: usize = chars.len();
    let mut out = String::new();
    let mut from: usize = 0;
    let mut i: usize = 0;
    assert(out@ + text@.subrange(0, 0) + respelled(text@.skip(0), ending) =~= respelled(text@, ending)) by {
        assert(text@.skip(0) =~= text@);
    }
    while i < n
        invariant
            n == chars@.len(),
            chars@ == text@,
            from <= i <= n,
            out@ + text@.subrange(from as int, i as int) + respelled(text@.skip(i as int), ending) == respelled(
                text@,
                ending,
            ),
        decreases n - i,
    {
        let ghost rest = text@.skip(i as int);
        let ghost before = out@ + text@.subrange(from as int, i as int);
        let paired = chars[i] == '\r' && i + 1 < n && chars[i + 1] == '\n';
        if paired || chars[i] == '\n' {
            let next: usize = if paired {
                i + 2
            } else {
                i + 1
            };
            out.append(text.substring_char(from, i));
            out.append(line_break(ending));
            assert(rest.skip(next - i) =~= text@.skip(next as int));
            assert(respelled(rest, ending) =~= spelled(ending) + respelled(text@.skip(next as int), ending));
            assert(out@ =~= before + spelled(ending));
            assert(text@.subrange(next as int, next as int) =~= Seq::<char>::empty());
            assert(out@ + text@.subrange(next as int, next as int) + respelled(text@.skip(next as int), ending)
                =~= before + respelled(rest, ending));
            i = next;
            from = next;
        } else {
            assert(rest.skip(1) =~= text@.skip(i + 1));
            assert(text@.subrange(from as int, i + 1) =~= text@.subrange(from as int, i as int).push(rest[0]));
            assert(out@ + text@.subrange(from as int, i + 1) + respelled(text@.skip(i + 1), ending) =~= before
                + respelled(rest, ending));
            i = i + 1;
        }
    }
    out.append(text.substring_char(from, n));
    assert(respelled(text@.skip(n as int), ending) =~= Seq::<char>::empty());
    assert(out@ =~= respelled(text@, ending));
    out
}

/// Tidies the end of a printed text and spells its line breaks.
pub fn finish_text(text: &str, fragment: bool, ending: LineEnding) -> (r: String)
    ensures
        r@ == finished(text@, fragment, ending),
{
    let kept = trim_end(text, CharSet::Blanks);
    let mut whole = kept.to_owned();
    if !fragment && kept.unicode_len() > 0 {
        proof {
            reveal_strlit("\n");
        }
        whole.append("\n");
        assert(whole@ =~= kept@.push('\n'));
    }
    apply_line_ending(whole.as_str(), ending)
}

// ---- laws ----------------------------------------------------------------------------------

proof fn lemma_strip_end(text: Seq<char>, set: CharSet)
    ensures
        strip_end(text, set).len() > 0 ==> !set.has(strip_end(text, set).last()),
        strip_end(text, set).len() <= text.len(),
        strip_end(text, set) == text.take(strip_end(text, set).len() as int),
    decreases text.len(),
{
    if text.len() > 0 && set.has(text.last()) {
        lemma_strip_end(text.drop_last(), set);
        let k = strip_end(text.drop_last(), set).len() as int;
        assert(text.drop_last().take(k) =~= text.take(k));
    } else {
        assert(text.take(text.len() as int) =~= text);
    }
}

/// What stands before the last character is spelled as it is alone, where no break is cut.
proof fn lemma_respell_last(text: Seq<char>, ending: LineEnding)
    requires
        text.len() > 0,
        text.last() != '\r',
        text.last() != '\n',
    ensures
        respelled(text, ending).len() > 0,
        respelled(text, ending).last() == text.last(),
        respelled(text.push('\n'), ending) == respelled(text, ending) + spelled(ending),
    decreases text.len(),
{
    let more = text.push('\n');
    if text.len() > 1 && text[0] == '\r' && text[1] == '\n' {
        assert(text.len() > 2);
        lemma_respell_last(text.skip(2), ending);
        assert(more.skip(2) =~= text.skip(2).push('\n'));
        assert(respelled(more, ending) =~= respelled(text, ending) + spelled(ending));
    } else if text.len() > 1 {
        lemma_respell_last(text.skip(1), ending);
        assert(more.skip(1) =~= text.skip(1).push('\n'));
        assert(respelled(more, ending) =~= respelled(text, ending) + spelled(ending));
    } else {
        assert(text.skip(1) =~= Seq::<char>::empty());
        assert(more.skip(1) =~= seq!['\n']);
        let feed = seq!['\n'];
        assert(feed.skip(1) =~= Seq::<char>::empty());
        assert(respelled(feed.skip(1), ending) =~= Seq::<char>::empty());
        assert(respelled(feed, ending) =~= spelled(ending) + respelled(feed.skip(1), ending));
        assert(respelled(feed, ending) =~= spelled(ending));
        assert(respelled(text, ending) =~= text);
        assert(respelled(more, ending) =~= text + spelled(ending));
    }
}

/// A whole document comes to nothing, or to a text that ends in one line break with no blank
/// before it. A fragment ends in no blank.
pub proof fn finished_text_ends_in_one_line_break(text: Seq<char>, fragment: bool, ending: LineEnding)
    ensures
        ({
            let kept = respelled(strip_end(text, CharSet::Blanks), ending);
            &&& kept.len() > 0 ==> !CharSet::Blanks.has(kept.last())
            &&& finished(text, fragment, ending) == (if fragment || kept.len() == 0 {
                kept
            } else {
                kept + spelled(ending)
            })
        }),
{
    let bare = strip_end(text, CharSet::Blanks);
    lemma_strip_end(text, CharSet::Blanks);
    if bare.len() > 0 {
        lemma_respell_last(bare, ending);
    }
}

/// Whether a carriage return stands before a line break that has one.
pub open spec fn stray_return(text: Seq<char>) -> bool {
    exists|i: int| 0 <= i < text.len() - 2 && #[trigger] text[i] == '\r' && text[i + 1] == '\r' && text[i + 2] == '\n'
}

proof fn lemma_respell_twice(text: Seq<char>, ending: LineEnding)
    requires
        ending == LineEnding::Crlf || !stray_return(text),
    ensures
        respelled(respelled(text, ending), ending) == respelled(text, ending),
    decreases text.len(),
{
    if text.len() == 0 {
    } else {
        let step: int = if text.len() > 1 && text[0] == '\r' && text[1] == '\n' {
            2
        } else {
            1
        };
        let rest = text.skip(step);
        if stray_return(rest) {
            let i = choose|i: int|
                0 <= i < rest.len() - 2 && #[trigger] rest[i] == '\r' && rest[i + 1] == '\r' && rest[i + 2] == '\n';
            assert(text[i + step] == '\r');
        }
        lemma_respell_twice(rest, ending);
        let whole = respelled(text, ending);
        let tail = respelled(rest, ending);
        if step == 2 || text[0] == '\n' {
            assert(whole =~= spelled(ending) + tail);
            assert(whole.skip(spelled(ending).len() as int) =~= tail);
        } else {
            assert(whole =~= seq![text[0]] + tail);
            assert(whole.skip(1) =~= tail);
            if rest.len() > 0 {
                if rest[0] == '\r' && rest.len() > 1 && rest[1] == '\n' {
                    assert(text[0] == '\r' ==> text[1] == '\r' && text[2] == '\n');
                }
            }
        }
    }
}

/// Finishing a finished text changes nothing, unless the line breaks lose a carriage return that
/// another one stands before.
pub proof fn finishing_twice_changes_nothing(text: Seq<char>, fragment: bool, ending: LineEnding)
    requires
        ending == LineEnding::Crlf || !stray_return(text),
    ensures
        finished(finished(text, fragment, ending), fragment, ending) == finished(text, fragment, ending),
{
    let bare = strip_end(text, CharSet::Blanks);
    lemma_strip_end(text, CharSet::Blanks);
    if stray_return(bare) {
        let i = choose|i: int|
            0 <= i < bare.len() - 2 && #[trigger] bare[i] == '\r' && bare[i + 1] == '\r' && bare[i + 2] == '\n';
        assert(text[i] == '\r');
    }
    lemma_respell_twice(bare, ending);
    let kept = respelled(bare, ending);
    if bare.len() > 0 {
        lemma_respell_last(bare, ending);
        lemma_respell_last(kept, ending);
        assert(strip_end(kept, CharSet::Blanks) == kept);
        if !fragment {
            let whole = kept + spelled(ending);
            assert(whole.drop_last() =~= kept + spelled(ending).drop_last());
            if ending == LineEnding::Crlf {
                assert(whole.drop_last().drop_last() =~= kept);
                assert(CharSet::Blanks.has(whole.drop_last().last()));
                assert(strip_end(whole.drop_last(), CharSet::Blanks) == kept);
            } else {
                assert(whole.drop_last() =~= kept);
            }
            assert(CharSet::Blanks.has(whole.last()));
            assert(strip_end(whole, CharSet::Blanks) == kept);
        }
    }
}

} // verus!

//! How a document is to be laid out.

use std::collections::BTreeMap;

use vstd::prelude::*;

verus! {

/// How the lines of a paragraph are broken.
#[derive(Clone, Copy, Debug, PartialEq, Eq, Structural)]
pub enum WrapMode {
    /// Words fill the line width.
    Reflow,
    /// Words fill the line width, near the breaks that are there.
    Stable,
    /// One sentence to a line.
    Sentence,
    /// One sentence to a line, and the breaks that are there.
    Semantic,
    /// The breaks that are there.
    Preserve,
}

impl Default for WrapMode {
    fn default() -> (r: WrapMode)
        ensures
            r == WrapMode::Reflow,
    {
        WrapMode::Reflow
    }
}

/// How display math is broken.
#[derive(Clone, Copy, Debug, PartialEq, Eq, Structural)]
pub enum MathWrap {
    /// As the paragraphs are.
    Auto,
    /// Before relations and binary operators.
    Break,
    /// Not at all.
    SingleLine,
    /// Where it is broken already.
    Preserve,
}

impl MathWrap {
    /// What a policy comes to beside a wrap mode.
    pub open spec fn under(self, wrap: WrapMode) -> MathWrap {
        if self != MathWrap::Auto {
            self
        } else if wrap == WrapMode::Preserve {
            MathWrap::Preserve
        } else {
            MathWrap::Break
        }
    }

    /// The policy, with [`MathWrap::Auto`] taken from the wrap mode.
    pub fn resolve(self, wrap: WrapMode) -> (r: MathWrap)
        ensures
            r == self.under(wrap),
            r != MathWrap::Auto,
    {
        if self != MathWrap::Auto {
            self
        } else if wrap == WrapMode::Preserve {
            MathWrap::Preserve
        } else {
            MathWrap::Break
        }
    }
}

/// How a line break is spelled.
#[derive(Clone, Copy, Debug, PartialEq, Eq, Structural)]
pub enum LineEnding {
    /// As the source spells it.
    Auto,
    Lf,
    Crlf,
}

impl LineEnding {
    /// What a choice comes to in a source that spells its line breaks as `found`.
    pub open spec fn over(self, found: LineEnding) -> LineEnding {
        if self == LineEnding::Auto {
            found
        } else {
            self
        }
    }

    /// The choice, with [`LineEnding::Auto`] taken from the source.
    pub fn resolve(self, found: LineEnding) -> (r: LineEnding)
        ensures
            r == self.over(found),
    {
        if self == LineEnding::Auto {
            found
        } else {
            self
        }
    }
}

/// Where the continuation lines of a list item stand.
#[derive(Clone, Copy, Debug, PartialEq, Eq, Structural)]
pub enum ItemIndent {
    /// Under the text behind the marker.
    Hang,
    /// One indentation step behind the marker.
    Indent,
    /// Under the marker.
    Flush,
}

impl Default for ItemIndent {
    fn default() -> (r: ItemIndent)
        ensures
            r == ItemIndent::Hang,
    {
        ItemIndent::Hang
    }
}

/// The layout of one run.
#[derive(Clone, Copy, Debug, PartialEq, Eq, Structural)]
pub struct FormatStyle {
    pub line_width: usize,
    /// The line width that [`WrapMode::Stable`] aims at.
    pub stable_target: usize,
    pub indent_width: usize,
    pub item_indent: ItemIndent,
    pub wrap: WrapMode,
    pub math_wrap: MathWrap,
    pub line_ending: LineEnding,
}

/// The line width of a configuration that names none.
pub const DEFAULT_LINE_WIDTH: u32 = 80;

/// The indentation step of a configuration that names none.
pub const DEFAULT_INDENT_WIDTH: u32 = 2;

/// The smallest width.
pub const MIN_WIDTH: u32 = 1;

/// The largest width.
pub const MAX_WIDTH: u32 = 1000;

/// The layout of a run that nothing is configured for.
pub open spec fn default_style() -> FormatStyle {
    FormatStyle {
        line_width: 80,
        stable_target: 80,
        indent_width: 2,
        item_indent: ItemIndent::Hang,
        wrap: WrapMode::Reflow,
        math_wrap: MathWrap::Auto,
        line_ending: LineEnding::Auto,
    }
}

impl Default for FormatStyle {
    fn default() -> (r: FormatStyle)
        ensures
            r == default_style(),
    {
        FormatStyle {
            line_width: DEFAULT_LINE_WIDTH as usize,
            stable_target: DEFAULT_LINE_WIDTH as usize,
            indent_width: DEFAULT_INDENT_WIDTH as usize,
            item_indent: ItemIndent::Hang,
            wrap: WrapMode::Reflow,
            math_wrap: MathWrap::Auto,
            line_ending: LineEnding::Auto,
        }
    }
}

/// The layout section of a configuration.
pub struct FormatConfig {
    pub line_width: u32,
    pub indent_width: u32,
    pub item_indent: ItemIndent,
    pub wrap: Option<WrapMode>,
    pub math_wrap: Option<MathWrap>,
    pub line_ending: Option<LineEnding>,
    /// The code of the document's language.
    pub lang: Option<String>,
    /// Abbreviations that end no sentence, by language code.
    pub no_break_abbreviations: BTreeMap<String, Vec<String>>,
}

impl Default for FormatConfig {
    fn default() -> (r: FormatConfig)
        ensures
            r.line_width == 80,
            r.indent_width == 2,
            r.item_indent == ItemIndent::Hang,
            r.wrap is None,
            r.math_wrap is None,
            r.line_ending is None,
            r.lang is None,
            r.no_break_abbreviations@ == Map::<String, Vec<String>>::empty(),
    {
        FormatConfig {
            line_width: default_line_width(),
            indent_width: default_indent_width(),
            item_indent: ItemIndent::Hang,
            wrap: None,
            math_wrap: None,
            line_ending: None,
            lang: None,
            no_break_abbreviations: BTreeMap::new(),
        }
    }
}

/// The line width of a configuration that names none.
pub fn default_line_width() -> (r: u32)
    ensures
        r == 80,
{
    DEFAULT_LINE_WIDTH
}

/// The indentation step of a configuration that names none.
pub fn default_indent_width() -> (r: u32)
    ensures
        r == 2,
{
    DEFAULT_INDENT_WIDTH
}

/// Why a configuration is refused.
#[derive(Debug, PartialEq, Eq)]
pub struct SettingsError {
    /// The setting.
    pub field: &'static str,
    pub message: String,
}

/// A number in decimal digits.
pub open spec fn decimal(value: nat) -> Seq<char>
    decreases value,
{
    if value < 10 {
        seq![digit(value as int)]
    } else {
        decimal(value / 10).push(digit((value % 10) as int))
    }
}

/// The digit of a number below ten.
pub open spec fn digit(value: int) -> char {
    if value == 0 {
        '0'
    } else if value == 1 {
        '1'
    } else if value == 2 {
        '2'
    } else if value == 3 {
        '3'
    } else if value == 4 {
        '4'
    } else if value == 5 {
        '5'
    } else if value == 6 {
        '6'
    } else if value == 7 {
        '7'
    } else if value == 8 {
        '8'
    } else {
        '9'
    }
}

fn digit_text(value: u64) -> (r: &'static str)
    requires
        value < 10,
    ensures
        r@ == seq![digit(value as int)],
{
    proof {
        reveal_strlit("0");
        reveal_strlit("1");
        reveal_strlit("2");
        reveal_strlit("3");
        reveal_strlit("4");
        reveal_strlit("5");
        reveal_strlit("6");
        reveal_strlit("7");
        reveal_strlit("8");
        reveal_strlit("9");
    }
    let r = if value == 0 {
        "0"
    } else if value == 1 {
        "1"
    } else if value == 2 {
        "2"
    } else if value == 3 {
        "3"
    } else if value == 4 {
        "4"
    } else if value == 5 {
        "5"
    } else if value == 6 {
        "6"
    } else if value == 7 {
        "7"
    } else if value == 8 {
        "8"
    } else {
        "9"
    };
    assert(r@ =~= seq![digit(value as int)]);
    r
}

/// A number in decimal digits.
pub fn decimal_text(value: u64) -> (r: String)
    ensures
        r@ == decimal(value as nat),
    decreases value,
{
    if value < 10 {
        digit_text(value).to_owned()
    } else {
        let mut out = decimal_text(value / 10);
        let ghost head = out@;
        out.append(digit_text(value % 10));
        assert(out@ =~= head.push(digit((value % 10) as int)));
        out
    }
}

impl SettingsError {
    /// What the error says: the setting, and what is wrong with it.
    pub fn message(&self) -> (r: String)
        ensures
            r@ == self.field@ + ": "@ + self.message@,
    {
        let mut out = self.field.to_owned();
        out.append(": ");
        out.append(self.message.as_str());
        out
    }
}

/// What the sentence rules come to for a configuration: the language, and the abbreviations that
/// end no sentence in it.
pub struct SentenceRules {
    pub language: String,
    pub no_break: Vec<String>,
}

/// A configuration that has been checked.
pub struct ResolvedFormatSettings {
    pub style: FormatStyle,
    pub language: String,
    pub no_break: Vec<String>,
}

/// The sentence rules of a run.
pub struct SentenceOptions<'a> {
    pub language: &'a str,
    pub no_break: &'a Vec<String>,
}

/// Whether a width is one that can be laid out in.
pub open spec fn width_ok(width: u32) -> bool {
    MIN_WIDTH <= width <= MAX_WIDTH
}

/// What is said of a width that is refused.
pub open spec fn width_message(width: u32) -> Seq<char> {
    "must be between 1 and 1000, got "@ + decimal(width as nat)
}

impl FormatConfig {
    /// Whether both widths can be laid out in.
    pub open spec fn valid(&self) -> bool {
        width_ok(self.line_width) && width_ok(self.indent_width)
    }

    /// The error that a configuration is refused with: the line width is looked at first.
    pub open spec fn refused_with(&self, e: SettingsError) -> bool {
        if !width_ok(self.line_width) {
            e.field@ == "line-width"@ && e.message@ == width_message(self.line_width)
        } else {
            e.field@ == "indent-width"@ && e.message@ == width_message(self.indent_width)
        }
    }

    /// The layout that a configuration asks for.
    pub open spec fn style(&self) -> FormatStyle {
        FormatStyle {
            line_width: self.line_width as usize,
            stable_target: self.line_width as usize,
            indent_width: self.indent_width as usize,
            item_indent: self.item_indent,
            wrap: match self.wrap {
                Some(wrap) => wrap,
                None => WrapMode::Reflow,
            },
            math_wrap: match self.math_wrap {
                Some(math_wrap) => math_wrap,
                None => MathWrap::Auto,
            },
            line_ending: match self.line_ending {
                Some(line_ending) => line_ending,
                None => LineEnding::Auto,
            },
        }
    }

    /// The layout of a configuration, with the wrap mode left at its default: a caller that
    /// resolves the mode file by file sets it.
    pub fn to_style(&self) -> (r: FormatStyle)
        ensures
            r == (FormatStyle { wrap: WrapMode::Reflow, ..self.style() }),
    {
        FormatStyle {
            line_width: self.line_width as usize,
            stable_target: self.line_width as usize,
            indent_width: self.indent_width as usize,
            item_indent: self.item_indent,
            wrap: WrapMode::Reflow,
            math_wrap: match self.math_wrap {
                Some(math_wrap) => math_wrap,
                None => MathWrap::Auto,
            },
            line_ending: match self.line_ending {
                Some(line_ending) => line_ending,
                None => LineEnding::Auto,
            },
        }
    }

    /// Checks both widths, the line width first.
    pub fn validate(&self) -> (r: Result<(), SettingsError>)
        ensures
            r is Ok <==> self.valid(),
            r matches Err(e) ==> self.refused_with(e),
    {
        if self.line_width < MIN_WIDTH || self.line_width > MAX_WIDTH {
            return Err(width_error("line-width", self.line_width));
        }
        if self.indent_width < MIN_WIDTH || self.indent_width > MAX_WIDTH {
            return Err(width_error("indent-width", self.indent_width));
        }
        Ok(())
    }

    /// The checked configuration. `sentence` is what the sentence rules come to for it.
    pub fn resolve(&self, sentence: SentenceRules) -> (r: Result<ResolvedFormatSettings, SettingsError>)
        ensures
            r is Ok <==> self.valid(),
            r matches Ok(settings) ==> settings.style == self.style() && settings.language == sentence.language
                && settings.no_break == sentence.no_break,
            r matches Err(e) ==> self.refused_with(e),
    {
        match self.validate() {
            Err(e) => Err(e),
            Ok(_) => {
                let mut style = self.to_style();
                style.wrap = match self.wrap {
                    Some(wrap) => wrap,
                    None => WrapMode::Reflow,
                };
                Ok(ResolvedFormatSettings { style, language: sentence.language, no_break: sentence.no_break })
            },
        }
    }
}

fn width_error(field: &'static str, value: u32) -> (e: SettingsError)
    ensures
        e.field@ == field@,
        e.message@ == width_message(value),
{
    let mut message = "must be between 1 and 1000, got ".to_owned();
    let digits = decimal_text(value as u64);
    message.append(digits.as_str());
    SettingsError { field, message }
}

impl ResolvedFormatSettings {
    /// The sentence rules of a run under these settings.
    pub fn sentence_options<'a>(&'a self) -> (r: SentenceOptions<'a>)
        ensures
            r.language@ == self.language@,
            *r.no_break == self.no_break,
    {
        SentenceOptions { language: self.language.as_str(), no_break: &self.no_break }
    }
}

/// A checked configuration lays out in widths from one to a thousand.
pub proof fn resolved_widths_are_in_bounds(config: FormatConfig)
    requires
        config.valid(),
    ensures
        1 <= config.style().line_width <= 1000,
        1 <= config.style().indent_width <= 1000,
{
}

/// A configuration is refused exactly where one of its widths is not from one to a thousand, and
/// the error names that width; of two it names the line width.
pub proof fn only_widths_out_of_bounds_are_refused(config: FormatConfig, e: SettingsError)
    ensures
        config.valid() <==> 1 <= config.line_width <= 1000 && 1 <= config.indent_width <= 1000,
        !(1 <= config.line_width <= 1000) && config.refused_with(e) ==> e.field@ == "line-width"@ && e.message@
            == "must be between 1 and 1000, got "@ + decimal(config.line_width as nat),
        1 <= config.line_width <= 1000 && !(1 <= config.indent_width <= 1000) && config.refused_with(e) ==> e.field@
            == "indent-width"@ && e.message@ == "must be between 1 and 1000, got "@ + decimal(config.indent_width as nat),
{
}

/// What a configuration says is what its layout has, and what it leaves open is left to the
/// default: filled lines, math that follows the text, and the line breaks of the source.
pub proof fn a_layout_has_what_its_configuration_says(config: FormatConfig)
    ensures
        config.style().line_width == config.line_width,
        config.style().stable_target == config.line_width,
        config.style().indent_width == config.indent_width,
        config.style().item_indent == config.item_indent,
        config.wrap matches Some(wrap) ==> config.style().wrap == wrap,
        config.wrap is None ==> config.style().wrap == WrapMode::Reflow,
        config.math_wrap matches Some(math_wrap) ==> config.style().math_wrap == math_wrap,
        config.math_wrap is None ==> config.style().math_wrap == MathWrap::Auto,
        config.line_ending matches Some(ending) ==> config.style().line_ending == ending,
        config.line_ending is None ==> config.style().line_ending == LineEnding::Auto,
{
}

/// Math is broken as it is in the source where the text keeps its lines, and at operators
/// otherwise, unless the configuration says how.
pub proof fn math_follows_the_text_unless_told(choice: MathWrap, wrap: WrapMode)
    ensures
        choice != MathWrap::Auto ==> choice.under(wrap) == choice,
        choice == MathWrap::Auto && wrap == WrapMode::Preserve ==> choice.under(wrap) == MathWrap::Preserve,
        choice == MathWrap::Auto && wrap != WrapMode::Preserve ==> choice.under(wrap) == MathWrap::Break,
{
}

/// The value of a digit.
pub open spec fn digit_value(c: char) -> int {
    c as int - '0' as int
}

/// The number that digits read.
pub open spec fn number(text: Seq<char>) -> int
    decreases text.len(),
{
    if text.len() == 0 {
        0
    } else {
        10 * number(text.drop_last()) + digit_value(text.last())
    }
}

/// The digits of a number read that number, and start with a zero only for zero itself.
pub proof fn digits_read_their_number(value: nat)
    ensures
        number(decimal(value)) == value,
        decimal(value).len() > 0,
        forall|i: int| 0 <= i < decimal(value).len() ==> '0' <= #[trigger] decimal(value)[i] <= '9',
        value > 0 ==> decimal(value)[0] != '0',
    decreases value,
{
    if value < 10 {
        assert(decimal(value).drop_last() =~= Seq::<char>::empty());
        assert(number(decimal(value).drop_last()) == 0);
    } else {
        digits_read_their_number(value / 10);
        assert(decimal(value).drop_last() =~= decimal(value / 10));
    }
}

} // verus!

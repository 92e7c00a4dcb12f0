//! Settings, gates, tables and printed text.

use std::collections::BTreeMap;

use tex_ls::finish::{apply_line_ending, finish_text};
use tex_ls::gap::{peel_leading_break, peel_trailing_break};
use tex_ls::gate::{
    conditional_closer, environment_escapes_group, gate_batch, gate_verdict, gated_closer, Aliases, DollarAnchor,
    EnvAnchor, GatePolicy, GateToken, Nesting, ParagraphAnchor, StrayBrace, Walk,
};
use tex_ls::ir::{Ir, IrList};
use tex_ls::math::is_control_word_letter;
use tex_ls::segments::push_entry_word;
use tex_ls::settings::{
    FormatConfig, FormatStyle, ItemIndent, LineEnding, MathWrap, SentenceRules, WrapMode,
};
use tex_ls::syntax::SyntaxKind;
use tex_ls::table::{render_alignment_rows, AlignRow, Cell, GridItem};

// ---- settings ------------------------------------------------------------------------------

fn rules() -> SentenceRules {
    SentenceRules { language: "en".to_string(), no_break: vec!["cf.".to_string()] }
}

#[test]
fn defaults_resolve_to_the_default_style() {
    let config = FormatConfig::default();
    assert!(config.validate().is_ok());
    let settings = config.resolve(rules()).ok().unwrap();
    assert_eq!(settings.style, FormatStyle::default());
    assert_eq!(settings.style.line_width, 80);
    assert_eq!(settings.style.indent_width, 2);
    assert_eq!(settings.sentence_options().language, "en");
    assert_eq!(*settings.sentence_options().no_break, vec!["cf.".to_string()]);
}

#[test]
fn widths_are_bounded() {
    for (line, indent, field) in [(0, 2, "line-width"), (1001, 0, "line-width"), (80, 0, "indent-width")] {
        let config = FormatConfig { line_width: line, indent_width: indent, ..FormatConfig::default() };
        let error = config.validate().err().unwrap();
        assert_eq!(error.field, field);
        assert_eq!(config.resolve(rules()).err().unwrap(), error);
    }
    let config = FormatConfig { line_width: 1001, ..FormatConfig::default() };
    assert_eq!(config.validate().err().unwrap().message(), "line-width: must be between 1 and 1000, got 1001");
    let config = FormatConfig { line_width: 1, indent_width: 1000, ..FormatConfig::default() };
    assert!(config.validate().is_ok());
}

#[test]
fn settings_override_the_defaults() {
    let config = FormatConfig {
        line_width: 100,
        indent_width: 4,
        item_indent: ItemIndent::Indent,
        wrap: Some(WrapMode::Sentence),
        math_wrap: Some(MathWrap::SingleLine),
        line_ending: Some(LineEnding::Crlf),
        lang: Some("de".to_string()),
        no_break_abbreviations: BTreeMap::new(),
    };
    let style = config.resolve(rules()).ok().unwrap().style;
    assert_eq!(style.line_width, 100);
    assert_eq!(style.wrap, WrapMode::Sentence);
    assert_eq!(style.math_wrap, MathWrap::SingleLine);
    assert_eq!(style.line_ending, LineEnding::Crlf);
    assert_eq!(config.to_style().wrap, WrapMode::Reflow);
}

#[test]
fn math_follows_the_paragraphs() {
    assert_eq!(MathWrap::Auto.resolve(WrapMode::Preserve), MathWrap::Preserve);
    assert_eq!(MathWrap::Auto.resolve(WrapMode::Stable), MathWrap::Break);
    assert_eq!(MathWrap::SingleLine.resolve(WrapMode::Preserve), MathWrap::SingleLine);
}

// ---- printed text --------------------------------------------------------------------------

#[test]
fn a_printed_text_ends_in_one_line_break() {
    assert_eq!(finish_text("a \n\t\r\n", false, LineEnding::Lf), "a\n");
    assert_eq!(finish_text("a", false, LineEnding::Crlf), "a\r\n");
    assert_eq!(finish_text(" \n", false, LineEnding::Lf), "");
    assert_eq!(finish_text("a \n", true, LineEnding::Lf), "a");
    assert_eq!(finish_text("a\u{a0}", false, LineEnding::Lf), "a\u{a0}\n");
}

#[test]
fn finishing_a_finished_text_changes_nothing() {
    for ending in [LineEnding::Lf, LineEnding::Crlf] {
        let once = finish_text("a\r\nb\nc  ", false, ending);
        assert_eq!(finish_text(&once, false, ending), once);
    }
}

#[test]
fn line_breaks_are_spelled_one_way() {
    assert_eq!(apply_line_ending("a\r\nb\nc\r", LineEnding::Lf), "a\nb\nc\r");
    assert_eq!(apply_line_ending("a\r\nb\nc\r", LineEnding::Crlf), "a\r\nb\r\nc\r");
    assert_eq!(apply_line_ending("", LineEnding::Crlf), "");
}

// ---- edges ---------------------------------------------------------------------------------

#[test]
fn breaks_are_taken_off_either_edge() {
    let body = Ir::Concat(vec![
        Ir::EmptyLine,
        Ir::Concat(vec![Ir::HardLine, Ir::Text("a".to_string())]),
        Ir::Text("b".to_string()),
        Ir::HardLine,
    ]);
    let (blank, rest) = peel_leading_break(&body);
    assert!(blank);
    assert_eq!(
        rest,
        Ir::Concat(vec![Ir::Text("a".to_string()), Ir::Text("b".to_string()), Ir::HardLine])
    );
    assert_eq!(peel_leading_break(&rest), (false, rest.clone()));
    let (blank, rest) = peel_trailing_break(&rest);
    assert!(!blank);
    assert_eq!(rest, Ir::Concat(vec![Ir::Text("a".to_string()), Ir::Text("b".to_string())]));
    assert_eq!(peel_trailing_break(&rest), (false, rest.clone()));
}

// ---- tables --------------------------------------------------------------------------------

fn cell(text: &str) -> Cell {
    Cell { text: text.to_string(), span: 1, align: None, block: None }
}

fn row(cells: Vec<Cell>) -> GridItem {
    GridItem::Row(AlignRow { cells, line_break: Some("\\\\".to_string()), trailing_comment: None })
}

#[test]
fn columns_are_as_wide_as_their_cells() {
    let items = vec![
        row(vec![cell("a"), cell("bb")]),
        GridItem::Passthrough("\\hline".to_string()),
        row(vec![cell("ccc"), cell("d")]),
    ];
    let expected = vec![
        Ir::Text("a   & bb \\\\".to_string()),
        Ir::HardLine,
        Ir::Text("\\hline".to_string()),
        Ir::HardLine,
        Ir::Text("ccc & d  \\\\".to_string()),
    ];
    assert_eq!(render_alignment_rows(&items, &Vec::new()), Ir::Concat(expected));
}

// ---- gates ---------------------------------------------------------------------------------

fn token(kind: SyntaxKind) -> GateToken {
    GateToken {
        kind,
        plain_brace: false,
        macro_code: false,
        env_begin: false,
        env_end: false,
        macrocode: false,
        begin_name: None,
        end_name: None,
    }
}

/// A walk over `source`: `(` opens, `)` closes, braces are braces, and a dot is anything else.
fn gate(source: &str) -> (Walk, GatePolicy) {
    let tokens: Vec<GateToken> = source
        .chars()
        .map(|c| {
            token(match c {
                '{' => SyntaxKind::LBrace,
                '}' => SyntaxKind::RBrace,
                '\n' => SyntaxKind::Newline,
                '$' => SyntaxKind::Dollar,
                '(' | ')' => SyntaxKind::ControlWord,
                _ => SyntaxKind::Word,
            })
        })
        .collect();
    let n = tokens.len();
    let walk = Walk {
        tokens,
        macrocode_end: None,
        in_def_body: false,
        in_group: false,
        plain_braces: 0,
        math_dollar: Vec::new(),
    };
    let policy = GatePolicy {
        paragraph_anchor: ParagraphAnchor::OwnLevel,
        nesting: Nesting::Counted,
        stray_brace: StrayBrace::RefutesAlways,
        env_anchor: EnvAnchor::Counts,
        dollar_anchor: DollarAnchor::Refutes,
        opener_is_env_begin: false,
        closer_needs_env_balance: true,
        env_anchor_in_macro_code: false,
        macrocode_frame_anchors: false,
        env_end_unwinds_openers: false,
        anchors_at_any_depth: false,
        opens: source.chars().map(|c| c == '(').collect(),
        closes: source.chars().map(|c| c == ')').collect(),
        math: vec![false; n],
        mate: vec![0; n],
        last_closer: source.rfind(')'),
    };
    (walk, policy)
}

fn closer(source: &str, open: usize) -> Option<usize> {
    let (walk, policy) = gate(source);
    gate_verdict(&walk, &policy, open)
}

#[test]
fn openers_find_their_closers() {
    assert_eq!(closer("(.)", 0), Some(2));
    assert_eq!(closer("((.)).", 0), Some(4));
    assert_eq!(closer("((.)).", 1), Some(3));
    assert_eq!(closer("(.", 0), None);
}

#[test]
fn braces_blank_lines_and_dollars_end_a_scan() {
    assert_eq!(closer("(})", 0), None);
    assert_eq!(closer("({)})", 0), Some(4));
    assert_eq!(closer("(\n\n)", 0), None);
    assert_eq!(closer("(\n.\n)", 0), Some(4));
    assert_eq!(closer("($)", 0), None);
}

#[test]
fn one_scan_settles_the_openers_that_it_passes() {
    let source = "(.(.).(";
    let (walk, policy) = gate(source);
    let mut memo = None;
    for open in [0, 2, 6] {
        assert_eq!(gated_closer(&walk, &policy, open, &mut memo), gate_verdict(&walk, &policy, open));
    }
    assert_eq!(conditional_closer(&walk, &policy, 2, &mut memo), Some(4));
    assert!(gate_batch(&walk, &policy, 0).contains(&(2, Some(4))));
}

#[test]
fn an_environment_escapes_only_a_group() {
    let (mut walk, policy) = gate("(.)");
    assert!(!environment_escapes_group(&walk, &policy, 0, false, &mut None));
    walk.in_group = true;
    assert!(environment_escapes_group(&walk, &policy, 0, false, &mut None));
    assert!(!environment_escapes_group(&walk, &policy, 0, true, &mut None));
}

#[test]
fn aliases_stand_for_the_ends_of_environments() {
    let (mut walk, policy) = gate("(.)");
    walk.tokens[2].env_end = true;
    let mut aliases = Aliases {
        openers: vec![true, false, false],
        closers: vec![None, Some("x".to_string()), None],
        literal_closers: vec![None, None, Some("y".to_string())],
    };
    assert_eq!(aliases.alias_closer(&walk, &policy, 0, &mut None), Some(2));
    assert_eq!(aliases.closer_target(&walk, 1), Some("x"));
    assert_eq!(aliases.closer_target(&walk, 2), Some("y"));
    assert!(!aliases.closer_is_literal(&walk, 1));
    assert!(aliases.closer_is_literal(&walk, 2));
    aliases.openers[0] = false;
    assert_eq!(aliases.alias_closer(&walk, &policy, 0, &mut None), None);
}

#[test]
fn a_bracket_abuts_a_command_directly_before_it() {
    let (mut walk, _) = gate("(..");
    walk.tokens[1].kind = SyntaxKind::LBracket;
    assert!(walk.bracket_abuts_command(1));
    walk.tokens[2].kind = SyntaxKind::LBracket;
    assert!(!walk.bracket_abuts_command(2));
    walk.math_dollar = vec![false, true];
    assert!(walk.enclosing_math_is_dollar());
    assert!(walk.walk_key().enclosing_math_is_dollar);
}

#[test]
fn letters_of_every_script_count() {
    assert!(is_control_word_letter("\u{e9}t"));
    assert!(!is_control_word_letter("1a"));
    assert!(!is_control_word_letter(""));
}

#[test]
fn what_a_scan_settled_is_kept_under_its_key() {
    let (walk, policy) = gate("((.)).");
    let mut memo = None;
    let silent = GatePolicy { last_closer: None, ..gate("((.)).").1 };
    assert_eq!(gated_closer(&walk, &silent, 0, &mut memo), None);
    assert!(memo.is_none());
    let closer = gated_closer(&walk, &policy, 0, &mut memo);
    assert!(closer.unwrap() > 0 && closer <= policy.last_closer);
    let kept = memo.as_ref().unwrap();
    assert_eq!(kept.key, walk.walk_key());
    assert_eq!(kept.verdicts.get(&0), Some(&closer));
    assert_eq!(kept.verdicts.get(&1), Some(&gate_verdict(&walk, &policy, 1)));
}

#[test]
fn commas_of_empty_entries_stay_with_the_next_entry() {
    let pieces = |text: &str, open: bool| {
        let mut parts = IrList::new();
        let separators = push_entry_word(text, true, &mut parts, open);
        let texts: Vec<String> = (0..parts.len()).map(|i| parts.at(i).print_flat()).collect();
        (separators, texts)
    };
    let texts = |parts: &[&str]| parts.iter().map(|p| p.to_string()).collect::<Vec<_>>();
    assert_eq!(pieces("a,,,b", false), (1, texts(&["a,", "", ",,b"])));
    assert_eq!(pieces("a,b", false), (1, texts(&["a,", "", "b"])));
    assert_eq!(pieces(",,a", false), (0, texts(&[",,a"])));
    assert_eq!(pieces(",a", true), (1, texts(&[",", "", "a"])));
}

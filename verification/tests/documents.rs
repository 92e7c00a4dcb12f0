//! Documents, read by a small reader that knows enough LaTeX for the sources below, and what the
//! library makes of their trees.

use tex_ls::context::{Boundary, LowerCtx};
use tex_ls::expl_facts::head_command_has_grouped_sibling_arg;
use tex_ls::format::{
    format_node, format_node_range_with_signatures, format_node_range_with_signatures_sentence,
    format_node_with_signatures, format_node_with_signatures_sentence, format_with_declarations_sentence,
    format_with_style, format_with_style_flavored, format_with_style_flavored_sentence,
    format_with_style_flavored_with_signatures, Document, Draft, FormatError,
};
use tex_ls::gap::Gap;
use tex_ls::alignment::is_paren_trim_word;
use tex_ls::ink::{forms_have_one_ink, has_ink_of};
use tex_ls::fidelity::is_faithful;
use tex_ls::ir::{Ir, IrList};
use tex_ls::lower::lower_loose_token;
use tex_ls::regions::{expl3_regions, ranges_overlap};
use tex_ls::roles::include_only;
use tex_ls::settings::{FormatStyle, ItemIndent, LineEnding, MathWrap, WrapMode};
use tex_ls::signatures::{
    declared_scope, ArgKind, ArgSpec, ArgumentDomain, CommandSig, ContentKind, EnvSig, ResolvedDeclarations, Scope,
    Signatures,
};
use tex_ls::syntax::{Elem, ExplToggle, Facts, MathAtom, MathClass, Span, SyntaxKind, Tree, WordAtom};

// ---- reading -------------------------------------------------------------------------------

#[derive(Clone, Debug)]
struct Piece {
    kind: SyntaxKind,
    text: String,
    at: usize,
}

fn lex(source: &str, dtx: bool) -> Vec<Piece> {
    let bytes = source.as_bytes();
    let mut out: Vec<Piece> = Vec::new();
    let mut expl = false;
    let mut i = 0;
    while i < bytes.len() {
        let start = i;
        let c = bytes[i];
        let line_start = i == 0 || bytes[i - 1] == b'\n';
        let kind = if c == b'\\' && source[i..].starts_with("\\verb|") {
            i += 6;
            while bytes[i] != b'|' {
                i += 1;
            }
            i += 1;
            SyntaxKind::Verb
        } else if c == b'\\' {
            i += 1;
            let letter = |b: u8| b.is_ascii_alphabetic() || (expl && (b == b'_' || b == b':'));
            if i < bytes.len() && letter(bytes[i]) {
                while i < bytes.len() && letter(bytes[i]) {
                    i += 1;
                }
                let name = &source[start..i];
                if name == "\\ExplSyntaxOn" || name.starts_with("\\ProvidesExpl") {
                    expl = true;
                }
                if name == "\\ExplSyntaxOff" {
                    expl = false;
                }
                SyntaxKind::ControlWord
            } else {
                i += 1;
                SyntaxKind::ControlSymbol
            }
        } else if c == b'\n' {
            i += 1;
            SyntaxKind::Newline
        } else if c == b' ' || c == b'\t' {
            while i < bytes.len() && (bytes[i] == b' ' || bytes[i] == b'\t') {
                i += 1;
            }
            SyntaxKind::Whitespace
        } else if c == b'%' && dtx && line_start {
            i += 1;
            SyntaxKind::DocMargin
        } else if c == b'%' {
            while i < bytes.len() && bytes[i] != b'\n' {
                i += 1;
            }
            SyntaxKind::Comment
        } else {
            let single = match c {
                b'{' => Some(SyntaxKind::LBrace),
                b'}' => Some(SyntaxKind::RBrace),
                b'[' => Some(SyntaxKind::LBracket),
                b']' => Some(SyntaxKind::RBracket),
                b'$' => Some(SyntaxKind::Dollar),
                b'&' => Some(SyntaxKind::Ampersand),
                b'~' => Some(SyntaxKind::Tilde),
                b'#' => Some(SyntaxKind::Hash),
                _ => None,
            };
            match single {
                Some(kind) => {
                    i += 1;
                    kind
                }
                None => {
                    while i < bytes.len() && !b"\\\n \t%{}[]$&~#".contains(&bytes[i]) {
                        i += 1;
                    }
                    SyntaxKind::Word
                }
            }
        };
        out.push(Piece { kind, text: source[start..i].to_string(), at: start });
    }
    out
}

struct Reader {
    pieces: Vec<Piece>,
    at: usize,
    elems: Vec<Elem>,
    open: Vec<usize>,
    expl: bool,
    math: bool,
    end: usize,
}

impl Reader {
    fn kind(&self, i: usize) -> Option<SyntaxKind> {
        self.pieces.get(i).map(|p| p.kind)
    }

    fn text(&self, i: usize) -> &str {
        self.pieces.get(i).map_or("", |p| p.text.as_str())
    }

    fn start(&mut self, kind: SyntaxKind, name: Option<&str>) {
        let here = self.pieces.get(self.at).map_or(self.end, |p| p.at);
        let parent = self.open.last().copied().unwrap_or(0);
        let mut facts = Facts::none();
        facts.name = name.map(|n| n.to_string());
        if kind == SyntaxKind::Command {
            facts.defines_next = matches!(name, Some("def" | "let" | "futurelet"));
        }
        let index = self.elems.len();
        self.elems.push(Elem {
            kind,
            token: false,
            parent,
            end: 0,
            span: Span { start: here, end: here },
            text: String::new(),
            facts,
        });
        self.open.push(index);
    }

    fn finish(&mut self) {
        let index = self.open.pop().unwrap();
        let here = self.pieces.get(self.at).map_or(self.end, |p| p.at);
        self.elems[index].end = self.elems.len();
        self.elems[index].span.end = here;
    }

    fn bump(&mut self) {
        let piece = self.pieces[self.at].clone();
        let mut facts = Facts::none();
        if piece.kind == SyntaxKind::ControlWord {
            if piece.text == "\\ExplSyntaxOn" || piece.text.starts_with("\\ProvidesExpl") {
                self.expl = true;
                facts.toggle = Some(ExplToggle::On);
            }
            if piece.text == "\\ExplSyntaxOff" {
                self.expl = false;
                facts.toggle = Some(ExplToggle::Off);
            }
        }
        if piece.kind == SyntaxKind::Word {
            for (i, c) in piece.text.chars().enumerate() {
                let class = match c {
                    '+' | '-' => MathClass::Bin,
                    '=' | '<' => MathClass::Rel,
                    ',' => MathClass::Punct,
                    _ => MathClass::Ord,
                };
                facts.letters.push(WordAtom { atom: MathAtom { class, delimiter: None }, start: i, end: i + 1 });
            }
        }
        let index = self.elems.len();
        self.elems.push(Elem {
            kind: piece.kind,
            token: true,
            parent: *self.open.last().unwrap(),
            end: index + 1,
            span: Span { start: piece.at, end: piece.at + piece.text.len() },
            text: piece.text,
            facts,
        });
        self.at += 1;
    }

    fn past_gap(&self, mut i: usize) -> usize {
        while matches!(self.kind(i), Some(SyntaxKind::Whitespace | SyntaxKind::Newline)) {
            i += 1;
        }
        i
    }

    fn past_group(&self, open: usize) -> usize {
        let mut depth = 0;
        let mut i = open;
        loop {
            match self.kind(i) {
                Some(SyntaxKind::LBrace) => depth += 1,
                Some(SyntaxKind::RBrace) => depth -= 1,
                None => return i,
                _ => {}
            }
            i += 1;
            if depth == 0 {
                return i;
            }
        }
    }

    /// Whether the arguments that the suffix of an expl3 name asks for all follow.
    fn resolves(&self, suffix: &str, mut i: usize) -> bool {
        for slot in suffix.chars() {
            i = self.past_gap(i);
            if slot == 'N' {
                if self.kind(i) != Some(SyntaxKind::ControlWord) {
                    return false;
                }
                i += 1;
            } else {
                if self.kind(i) != Some(SyntaxKind::LBrace) {
                    return false;
                }
                i = self.past_group(i);
            }
        }
        true
    }

    fn gap(&mut self) {
        while matches!(self.kind(self.at), Some(SyntaxKind::Whitespace | SyntaxKind::Newline)) {
            self.bump();
        }
    }

    fn command(&mut self) {
        let name = self.text(self.at)[1..].to_string();
        self.start(SyntaxKind::Command, Some(&name));
        self.bump();
        let suffix = name.split_once(':').map(|(_, suffix)| suffix.to_string());
        match suffix {
            Some(suffix) if self.expl && self.resolves(&suffix, self.at) => {
                for slot in suffix.chars() {
                    self.gap();
                    if slot == 'N' {
                        let inner = self.text(self.at)[1..].to_string();
                        self.start(SyntaxKind::Command, Some(&inner));
                        self.bump();
                        self.finish();
                    } else {
                        self.group();
                    }
                }
            }
            _ => loop {
                let next = if self.expl { self.past_gap(self.at) } else { self.at };
                match self.kind(next) {
                    Some(SyntaxKind::LBrace) => {
                        self.gap_to(next);
                        self.group();
                    }
                    Some(SyntaxKind::LBracket) => {
                        self.gap_to(next);
                        self.optional();
                    }
                    _ => break,
                }
            },
        }
        let index = *self.open.last().unwrap();
        let owner = self.elems[index].parent;
        self.elems[index].facts.ends_statement = self.expl && self.elems[owner].kind != SyntaxKind::Command;
        self.finish();
    }

    fn gap_to(&mut self, next: usize) {
        while self.at < next {
            self.bump();
        }
    }

    fn group(&mut self) {
        self.start(SyntaxKind::Group, None);
        self.bump();
        while self.at < self.pieces.len() && self.kind(self.at) != Some(SyntaxKind::RBrace) {
            self.element();
        }
        if self.at < self.pieces.len() {
            self.bump();
        }
        self.finish();
    }

    fn inline_math(&mut self) {
        self.start(SyntaxKind::InlineMath, None);
        self.bump();
        self.start(SyntaxKind::Math, None);
        self.math = true;
        while self.at < self.pieces.len() && self.kind(self.at) != Some(SyntaxKind::Dollar) {
            self.element();
        }
        self.math = false;
        self.finish();
        if self.at < self.pieces.len() {
            self.bump();
        }
        self.finish();
    }

    fn optional(&mut self) {
        self.start(SyntaxKind::Optional, None);
        self.bump();
        while self.at < self.pieces.len() && self.kind(self.at) != Some(SyntaxKind::RBracket) {
            self.element();
        }
        if self.at < self.pieces.len() {
            self.bump();
        }
        self.finish();
    }

    fn named_line(&mut self, kind: SyntaxKind, name: &str) {
        self.start(kind, Some(name));
        self.bump();
        self.start(SyntaxKind::NameGroup, None);
        self.bump();
        self.bump();
        self.bump();
        self.finish();
        loop {
            match self.kind(self.at) {
                Some(SyntaxKind::LBrace) => self.group(),
                Some(SyntaxKind::LBracket) => self.optional(),
                _ => break,
            }
        }
        self.finish();
    }

    fn environment(&mut self) {
        let name = self.text(self.at + 2).to_string();
        self.start(SyntaxKind::Environment, Some(&name));
        self.named_line(SyntaxKind::Begin, &name);
        self.blocks(name == "macrocode");
        if self.text(self.at) == "\\end" {
            self.named_line(SyntaxKind::End, &name);
        }
        self.finish();
    }

    fn element(&mut self) {
        match self.kind(self.at) {
            Some(SyntaxKind::LBrace) => self.group(),
            Some(SyntaxKind::ControlWord) if self.text(self.at) == "\\begin" => self.environment(),
            Some(SyntaxKind::ControlWord) => self.command(),
            Some(SyntaxKind::Dollar) => self.inline_math(),
            Some(SyntaxKind::ControlSymbol) if self.text(self.at) == "\\\\" => {
                self.start(SyntaxKind::LineBreak, None);
                self.bump();
                self.finish();
            }
            _ => self.bump(),
        }
    }

    /// Whether an empty line starts here.
    fn at_empty_line(&self) -> bool {
        let mut breaks = 0;
        let mut i = self.at;
        while matches!(self.kind(i), Some(SyntaxKind::Whitespace | SyntaxKind::Newline)) {
            if self.kind(i) == Some(SyntaxKind::Newline) {
                breaks += 1;
            }
            i += 1;
        }
        breaks > 1
    }

    fn closes(&self) -> bool {
        self.at >= self.pieces.len() || self.text(self.at) == "\\end"
    }

    /// Paragraphs and what stands between them, up to the end of the environment.
    fn blocks(&mut self, flat: bool) {
        while !self.closes() {
            if matches!(self.kind(self.at), Some(SyntaxKind::Whitespace | SyntaxKind::Newline)) {
                self.bump();
            } else if flat || self.text(self.at) == "\\begin" || self.kind(self.at) == Some(SyntaxKind::DocMargin) {
                self.element();
            } else {
                self.start(SyntaxKind::Paragraph, None);
                while !self.closes() && !self.at_empty_line() && self.text(self.at) != "\\begin" {
                    let next = self.past_gap(self.at);
                    if next > self.at && (next >= self.pieces.len() || matches!(self.text(next), "\\end" | "\\begin")) {
                        break;
                    }
                    self.element();
                }
                self.finish();
            }
        }
    }
}

fn read(source: &str, dtx: bool) -> Tree {
    let mut reader = Reader {
        pieces: lex(source, dtx),
        at: 0,
        elems: Vec::new(),
        open: Vec::new(),
        expl: false,
        math: false,
        end: source.len(),
    };
    reader.start(SyntaxKind::Root, None);
    while reader.at < reader.pieces.len() {
        reader.blocks(false);
        if reader.at < reader.pieces.len() {
            reader.bump();
        }
    }
    reader.finish();
    let tree = Tree { elems: reader.elems };
    assert!(tree.is_well_formed(), "{source:?}");
    tree
}

fn source_of(tree: &Tree) -> String {
    tree.elems.iter().filter(|e| e.token).map(|e| e.text.as_str()).collect()
}

fn document(source: &str) -> Document {
    of_tree(read(source, false))
}

fn of_tree(tree: Tree) -> Document {
    let regions = expl3_regions(&tree);
    Document {
        tree,
        errors: 0,
        definitions: Signatures::empty(),
        builtin: Signatures::empty(),
        suppressed: Vec::new(),
        boundaries: Vec::new(),
        line_ending: LineEnding::Lf,
        regions,
    }
}

// ---- printing ------------------------------------------------------------------------------

struct Page {
    out: String,
    width: usize,
    step: usize,
}

impl Page {
    fn column(&self) -> usize {
        self.out.chars().rev().take_while(|c| *c != '\n').count()
    }

    fn line(&mut self, indent: usize) {
        while self.out.ends_with(' ') {
            self.out.pop();
        }
        self.out.push('\n');
        self.out.push_str(&" ".repeat(indent));
    }

    fn words(&mut self, atoms: &[Ir], indent: usize) {
        for (i, atom) in atoms.iter().enumerate() {
            if i > 0 {
                let wide = self.column() + 1 + atom.print_flat().chars().count();
                if wide > self.width {
                    self.line(indent);
                } else {
                    self.out.push(' ');
                }
            }
            self.put(atom, indent, false);
        }
    }

    fn put(&mut self, ir: &Ir, indent: usize, flat: bool) {
        match ir {
            Ir::Nil => {}
            Ir::Text(text) | Ir::Verbatim { text, .. } | Ir::ZeroWidth(text) => self.out.push_str(text),
            Ir::ColumnZero(text) => {
                while self.out.ends_with(' ') {
                    self.out.pop();
                }
                self.out.push_str(text);
            }
            Ir::Line if flat => self.out.push(' '),
            Ir::SoftLine | Ir::TightLine if flat => {}
            Ir::Line | Ir::SoftLine | Ir::TightLine | Ir::HardLine => self.line(indent),
            Ir::EmptyLine => {
                self.line(0);
                self.line(indent);
            }
            Ir::Concat(items) => {
                for item in items {
                    self.put(item, indent, flat);
                }
            }
            Ir::HugFill(items) | Ir::StickyFill(items) => {
                for (i, item) in items.iter().enumerate() {
                    let mut wide = self.column() + item.print_flat().chars().count();
                    if i % 2 == 1 {
                        wide += items.get(i + 1).map_or(0, |word| word.print_flat().chars().count());
                    }
                    self.put(item, indent, flat || (!item.contains_forced_break() && wide <= self.width));
                }
            }
            Ir::Fill(items) => self.words(items, indent),
            Ir::PreferredFill { atoms, .. } => self.words(atoms, indent),
            Ir::Candidates(items) => self.put(items.last().unwrap(), indent, flat),
            Ir::Group(body) | Ir::HugGroup(body) => {
                let wide = self.column() + body.print_flat().chars().count();
                self.put(body, indent, flat || (!body.contains_forced_break() && wide <= self.width));
            }
            Ir::Indent(body) => self.put(body, indent + self.step, flat),
            Ir::Align { width, body } => self.put(body, indent + width, flat),
            Ir::AlignCurrent(body) => self.put(body, self.column(), flat),
            Ir::BoundedAlign { aligned, .. } => self.put(aligned, indent, flat),
            Ir::IfBreak { flat: whole, broken } => self.put(if flat { whole } else { broken }, indent, flat),
            Ir::MarginPrefix { body, .. } | Ir::DocMargin(body) => self.put(body, indent, flat),
        }
    }
}

fn print(draft: &Draft, style: FormatStyle) -> String {
    let mut page = Page { out: String::new(), width: style.line_width, step: style.indent_width };
    page.put(&draft.layout, 0, false);
    draft.finish(&page.out)
}

fn formatted(doc: &Document) -> String {
    assert!(doc.is_well_formed());
    print(&tex_ls::format::format(doc).unwrap(), FormatStyle::default())
}

fn formatted_source(source: &str) -> String {
    formatted(&document(source))
}

// ---- groups of expl3 calls -----------------------------------------------------------------

fn with_context<R>(tree: &Tree, ask: impl Fn(LowerCtx) -> R) -> R {
    let nothing = Signatures::empty();
    let spans: Vec<Span> = Vec::new();
    let boundaries: Vec<Boundary> = Vec::new();
    ask(LowerCtx {
        t: tree,
        wrap: WrapMode::Reflow,
        item_indent: ItemIndent::Hang,
        indent_width: 2,
        math_wrap: MathWrap::Break,
        stable_target: 80,
        signatures: Scope { own: &nothing, external: None, builtin: &nothing },
        regions: &spans,
        suppressed: &spans,
        boundaries: &boundaries,
        range: None,
        margin_probe: false,
        preserve_nested: false,
        in_doc_region: false,
        in_cell: false,
        absorbed: None,
        omitted: None,
        is_dtx: false,
    })
}

/// Asks about the innermost group whose text contains `marker`.
fn grouped_sibling_walk(input: &str, marker: &str) -> bool {
    let tree = read(input, false);
    let group = (0..tree.elems.len())
        .filter(|&i| {
            let span = tree.elems[i].span;
            tree.is_node(i, SyntaxKind::Group) && input[span.start..span.end].contains(marker)
        })
        .last()
        .expect("a group containing the marker");
    with_context(&tree, |cx| head_command_has_grouped_sibling_arg(cx, group))
}

#[test]
fn grouped_sibling_walk_stops_at_the_statement_boundary() {
    let src = "\\ExplSyntaxOn\n\\tl_set:Nn \\l_x { v }\n\\bool_if:NF \\l_bool { body }\n\\ExplSyntaxOff\n";
    assert!(!grouped_sibling_walk(src, "body"));

    let src = "\\ExplSyntaxOn\n\\prop_get:NnNTF \\g_prop {#2} \\l_tl { branch } { f }\n\\ExplSyntaxOff\n";
    assert!(grouped_sibling_walk(src, "branch"));

    let src = "\\ExplSyntaxOn\n\\prop_get:NnNTF \\g_prop {#2} \\l_tl { branch }\n\\ExplSyntaxOff\n";
    assert!(!grouped_sibling_walk(src, "branch"));
}

#[test]
fn grouped_sibling_walk_matches_the_body_stream_segmentation() {
    let src = "\\ExplSyntaxOn\n\\use:n { \\tl_set:Nn \\l_x { v } \\bool_if:NF \\l_b { body } }\n\\ExplSyntaxOff\n";
    assert!(!grouped_sibling_walk(src, "body"));
}

#[test]
fn grouped_sibling_walk_ignores_out_of_region_prefix() {
    let src = "x \\emph{y} \\ExplSyntaxOn \\tl_put_right:Ne \\l_t { body } \\ExplSyntaxOff\n";
    assert!(!grouped_sibling_walk(src, "body"));
}

// ---- expl3 regions -------------------------------------------------------------------------

fn regions(input: &str) -> Vec<(usize, usize)> {
    expl3_regions(&read(input, false)).into_iter().map(|r| (r.start, r.end)).collect()
}

#[test]
fn on_off_pair_spans_both_toggles() {
    let input = r"a \ExplSyntaxOn b \ExplSyntaxOff c";
    let start = input.find(r"\ExplSyntaxOn").unwrap();
    let end = input.find(r"\ExplSyntaxOff").unwrap() + r"\ExplSyntaxOff".len();
    assert_eq!(regions(input), vec![(start, end)]);
}

#[test]
fn unclosed_region_runs_to_eof() {
    let input = r"x \ExplSyntaxOn y z";
    let start = input.find(r"\ExplSyntaxOn").unwrap();
    assert_eq!(regions(input), vec![(start, input.len())]);
}

#[test]
fn provides_expl_opens_to_eof() {
    let input = "\\ProvidesExplPackage\n\\cs_new:N \\foo:";
    assert_eq!(regions(input), vec![(0, input.len())]);
}

#[test]
fn definee_provides_does_not_open_region() {
    let input = "\\protected\\def\\ProvidesExplPackage{\\ProvidesPackage{demo}}\ntext";
    assert!(regions(input).is_empty());
}

#[test]
fn definee_off_does_not_close_a_real_region() {
    let input = "\\ExplSyntaxOn a \\let\\ExplSyntaxOff\\relax b";
    assert_eq!(regions(input), vec![(0, input.len())]);
}

#[test]
fn stored_toggle_in_group_does_not_open_region() {
    let input = "\\def\\store{\\ExplSyntaxOn \\foo:n {x}}\ntext";
    assert!(regions(input).is_empty());
}

#[test]
fn top_level_provides_after_gated_definee_still_opens() {
    let input = "\\def\\x{\\ExplSyntaxOn}\n\\ProvidesExplPackage\n\\cs_new:N \\foo:";
    let start = input.rfind("\\ProvidesExplPackage").unwrap();
    assert_eq!(regions(input), vec![(start, input.len())]);
}

#[test]
fn stray_off_is_ignored() {
    assert!(regions(r"a \ExplSyntaxOff b").is_empty());
}

#[test]
fn redundant_inner_on_does_not_restart() {
    let input = r"\ExplSyntaxOn a \ExplSyntaxOn b \ExplSyntaxOff";
    let end = input.find(r"\ExplSyntaxOff").unwrap() + r"\ExplSyntaxOff".len();
    assert_eq!(regions(input), vec![(0, end)]);
}

#[test]
fn toggle_inside_verb_is_not_a_region() {
    assert!(regions(r"\verb|\ExplSyntaxOn| text").is_empty());
}

#[test]
fn toggle_inside_comment_is_not_a_region() {
    assert!(regions("% \\ExplSyntaxOn\ntext").is_empty());
}

#[test]
fn dtx_region_owns_only_macrocode_bodies() {
    let input = "%    \\begin{macrocode}\n\
                 \\ExplSyntaxOn\n\
                 %    \\end{macrocode}\n\
                 \x20%\n\
                 % doc\n\
                 %    \\begin{macrocode}\n\
                 \\foo\n\
                 %    \\end{macrocode}\n";
    let first_frame = input.find("%    \\end{macrocode}").unwrap();
    let second_body = input.find("\\foo").unwrap();
    let second_frame = input.rfind("%    \\end{macrocode}").unwrap();
    let found: Vec<(usize, usize)> =
        expl3_regions(&read(input, true)).into_iter().map(|r| (r.start, r.end)).collect();
    assert_eq!(
        found,
        vec![
            (input.find("\\ExplSyntaxOn").unwrap(), first_frame),
            (second_body, second_frame),
        ]
    );
}

// ---- gaps ----------------------------------------------------------------------------------

/// The gap of the first run of white space, in the outermost node that has one.
fn first_gap(input: &str) -> Gap {
    let tree = read(input, false);
    with_context(&tree, |cx| {
        for n in 0..tree.elems.len() {
            if tree.elems[n].token {
                continue;
            }
            let es = tree.children(n);
            for i in 0..es.len() {
                if tree.is_gap(es[i]) {
                    return cx.consume_gap(&es, i).0;
                }
            }
        }
        panic!("no white space in {input:?}");
    })
}

#[test]
fn a_lone_newline_and_a_space_are_the_same_gap() {
    assert_eq!(first_gap("\\foo{a b}"), first_gap("\\foo{a\nb}"));
    assert_eq!(first_gap("\\foo{a\nb}"), Gap::space());
    assert_eq!(first_gap("\\foo{a\n    b}"), Gap::space());
    assert_eq!(first_gap("\\foo{a \n b}"), Gap::space());
}

#[test]
fn a_blank_line_stays_visible() {
    assert_eq!(first_gap("\\foo{a\n\nb}"), Gap::Blank);
    assert_eq!(first_gap("\\foo{a\n\n\nb}"), Gap::Blank);
    assert_eq!(Gap::Blank.flat(), " ");
}

#[test]
fn a_wide_run_rides_verbatim() {
    assert_eq!(first_gap("\\foo{a    b}"), Gap::Space { flat: "    ".to_string() });
    assert_ne!(first_gap("\\foo{a    b}"), first_gap("\\foo{a\nb}"));
}

#[test]
fn a_glued_junction_separates_without_a_flat_space() {
    assert!(matches!(Gap::Glued.separator(), Ir::SoftLine));
    assert_eq!(Gap::Glued.flat(), "");
    assert!(matches!(Gap::space().separator(), Ir::Line));
    assert!(matches!(Gap::Blank.separator(), Ir::Line));
    assert!(matches!(Gap::Comment.separator(), Ir::Line));
}

// ---- files ---------------------------------------------------------------------------------

#[test]
fn bare_inputs_are_lossless_and_dynamic_suffixes_are_not_paths() {
    for source in [
        "\\input chapters/a_b.tex\n",
        "\\input\nchapters/a.tex\n",
        "\\input foo\\suffix\n",
        "\\input \n",
        "\\input{broken",
    ] {
        let tree = read(source, false);
        assert_eq!(source_of(&tree), source);
        if source.contains("suffix") {
            let command = (0..tree.elems.len()).find(|&i| tree.is_node(i, SyntaxKind::Command)).unwrap();
            assert!(tree.nth_group_inner(command, 0).is_none());
        }
    }
}

#[test]
fn includeonly_tracks_exclusion_without_losing_source_names() {
    let filter = include_only(&read(r"\includeonly{a,c.tex}\include{a}\include{b}", false));
    assert_eq!(filter.participates("a"), Some(true));
    assert_eq!(filter.participates("b"), Some(false));
    assert_eq!(filter.participates("c"), Some(true));
    let filter = include_only(&read(r"\includeonly{\dynamic}", false));
    assert_eq!(filter.participates("a"), None);
}

#[test]
fn names_of_files_are_compared_without_white_space_and_suffix() {
    let filter = include_only(&read(r"\includeonly{ a , c.tex}", false));
    assert_eq!(filter.participates("\u{2003}c.tex "), Some(true));
    assert_eq!(filter.participates("a.tex"), Some(true));
    assert_eq!(filter.participates("a.txt"), Some(false));
}

#[test]
fn a_document_without_includeonly_excludes_nothing() {
    let filter = include_only(&read(r"\include{a}", false));
    assert_eq!(filter.participates("a"), Some(true));
}

// ---- layout --------------------------------------------------------------------------------

fn command(name: &str) -> CommandSig {
    CommandSig {
        name: name.to_string(),
        args: Vec::new(),
        inline: false,
        block: false,
        rule: false,
        sectioning: false,
        citation: None,
    }
}

fn environment(name: &str) -> EnvSig {
    EnvSig {
        name: name.to_string(),
        args: Vec::new(),
        align: false,
        math: false,
        list: false,
        no_indent: false,
        statement_body: false,
    }
}

fn standard() -> Signatures {
    let prose = ArgSpec {
        kind: ArgKind::Brace,
        required: true,
        content: ContentKind::Prose,
        domain: ArgumentDomain::Text,
    };
    Signatures {
        commands: vec![
            CommandSig { inline: true, args: vec![prose], ..command("emph") },
            CommandSig { sectioning: true, block: true, args: vec![prose], ..command("section") },
            CommandSig { rule: true, ..command("hline") },
        ],
        environments: vec![
            EnvSig { no_indent: true, ..environment("document") },
            EnvSig { align: true, ..environment("tabular") },
            EnvSig { list: true, ..environment("itemize") },
        ],
    }
}

fn known(source: &str) -> Document {
    Document { builtin: standard(), ..document(source) }
}

fn in_mode(source: &str, wrap: WrapMode) -> String {
    let style = FormatStyle { wrap, ..FormatStyle::default() };
    let doc = known(source);
    assert!(doc.is_well_formed());
    print(&format_with_style(&doc, style).unwrap(), style)
}

#[test]
fn words_of_a_paragraph_fill_the_line() {
    assert_eq!(formatted_source("one\ntwo   three\n"), "one two three\n");
    let long = "word ".repeat(30);
    let expected = format!("{}\n{}\n", vec!["word"; 16].join(" "), vec!["word"; 14].join(" "));
    assert_eq!(formatted_source(&long), expected);
}

#[test]
fn paragraphs_stay_apart_by_one_empty_line() {
    assert_eq!(formatted_source("a\n\n\n\nb\n"), "a\n\nb\n");
}

#[test]
fn the_first_line_is_not_indented_and_the_last_one_ends() {
    assert_eq!(formatted_source("   a\n\n\n"), "a\n");
    assert_eq!(formatted_source(""), "");
    assert_eq!(formatted_source(" \n\n"), "");
}

#[test]
fn the_body_of_an_environment_is_indented() {
    assert_eq!(formatted_source("\\begin{foo}\nx\n y\n\\end{foo}\n"), "\\begin{foo}\n  x y\n\\end{foo}\n");
    assert_eq!(formatted_source("\\begin{foo}x\\end{foo}\n"), "\\begin{foo}\n  x\n\\end{foo}\n");
    assert_eq!(
        formatted_source("\\begin{a}\n\\begin{b}\nx\n\\end{b}\n\\end{a}\n"),
        "\\begin{a}\n  \\begin{b}\n    x\n  \\end{b}\n\\end{a}\n"
    );
}

#[test]
fn the_body_of_a_document_is_not_indented() {
    let doc = known("\\begin{document}\n  x\n\\end{document}\n");
    assert_eq!(formatted(&doc), "\\begin{document}\nx\n\\end{document}\n");
}

#[test]
fn a_comment_ends_its_line() {
    assert_eq!(formatted_source("a % c\nb\n"), "a % c\nb\n");
    assert_eq!(formatted_source("a\n% c\nb\n"), "a\n% c\nb\n");
}

#[test]
fn lines_of_commands_stay_lines() {
    assert_eq!(
        formatted_source("\\usepackage{a}\n\\usepackage{b}\n"),
        "\\usepackage{a}\n\\usepackage{b}\n"
    );
}

#[test]
fn a_section_stands_apart() {
    let doc = known("text\n\\section{A}\nmore\n");
    assert_eq!(formatted(&doc), "text\n\n\\section{A}\n\nmore\n");
}

#[test]
fn a_line_break_ends_its_line() {
    assert_eq!(formatted_source("a \\\\ b\nc\n"), "a \\\\\nb c\n");
}

#[test]
fn modes_differ_in_the_breaks_that_they_keep() {
    let source = "one two\nthree\n";
    assert_eq!(in_mode(source, WrapMode::Reflow), "one two three\n");
    assert_eq!(in_mode(source, WrapMode::Preserve), "one two\nthree\n");
    assert_eq!(in_mode("one   two\nthree\n", WrapMode::Preserve), "one two\nthree\n");
}

#[test]
fn sentences_end_where_the_rules_say() {
    let style = FormatStyle { wrap: WrapMode::Sentence, ..FormatStyle::default() };
    let doc = known("One two. Three\nfour.\n");
    let ends = vec![Boundary { word: "two.".to_string(), next: "Three".to_string() }];
    let draft = format_with_style_flavored_sentence(&doc, style, &ends).unwrap();
    assert_eq!(print(&draft, style), "One two.\nThree four.\n");
    let draft = format_with_style_flavored(&doc, style).unwrap();
    assert_eq!(print(&draft, style), "One two. Three four.\n");
}

#[test]
fn suppressed_stretches_are_reproduced() {
    let source = "a   b\n\n\\begin{foo}\nx    y\n\\end{foo}\n";
    let mut doc = document(source);
    let start = source.find("\\begin").unwrap();
    doc.suppressed = vec![Span { start, end: source.len() }];
    assert_eq!(formatted(&doc), "a b\n\n\\begin{foo}\nx    y\n\\end{foo}\n");
}

#[test]
fn cells_stand_under_one_another() {
    let doc = known("\\begin{tabular}{ll}\na&bb\\\\\nccc & d\\\\\n\\end{tabular}\n");
    assert_eq!(
        formatted(&doc),
        "\\begin{tabular}{ll}\n  a   & bb \\\\\n  ccc & d  \\\\\n\\end{tabular}\n"
    );
}

#[test]
fn rules_stand_between_rows() {
    let doc = known("\\begin{tabular}{ll}\n\\hline\na&b\\\\ \\hline\nc&d\\\\\n\\end{tabular}\n");
    assert_eq!(
        formatted(&doc),
        "\\begin{tabular}{ll}\n  \\hline\n  a & b \\\\\n  \\hline\n  c & d \\\\\n\\end{tabular}\n"
    );
}

#[test]
fn items_hang() {
    let doc = known("\\begin{itemize}\n\\item one\ntwo\n\\item three\n\\end{itemize}\n");
    assert_eq!(
        formatted(&doc),
        "\\begin{itemize}\n  \\item one two\n  \\item three\n\\end{itemize}\n"
    );
    let long = format!("\\begin{{itemize}}\n\\item {}\n\\end{{itemize}}\n", "word ".repeat(20));
    assert_eq!(
        formatted(&known(&long)),
        format!(
            "\\begin{{itemize}}\n  \\item {}\n        {}\n\\end{{itemize}}\n",
            vec!["word"; 14].join(" "),
            vec!["word"; 6].join(" ")
        )
    );
}

#[test]
fn operators_are_spaced() {
    assert_eq!(formatted_source("x $a+b=c$ y\n"), "x $a + b = c$ y\n");
    assert_eq!(formatted_source("$-a$\n"), "$-a$\n");
}

#[test]
fn prose_arguments_are_filled() {
    let doc = known("a \\emph{b\nc} d\n");
    assert_eq!(formatted(&doc), "a \\emph{b c} d\n");
}

#[test]
fn expl3_code_is_laid_out_by_statements() {
    let source = "\\ExplSyntaxOn\n\\tl_set:Nn   \\l_x {v}\n\\ExplSyntaxOff\n";
    assert_eq!(formatted_source(source), "\\ExplSyntaxOn\n\\tl_set:Nn \\l_x { v }\n\\ExplSyntaxOff\n");
}

#[test]
fn arguments_of_unknown_commands_stay() {
    assert_eq!(formatted_source("\\foo[a=1,b=2]{x}\n"), "\\foo[a=1,b=2]{x}\n");
    assert_eq!(formatted_source("a \\verb|x  y| b\n"), "a \\verb|x  y| b\n");
}

#[test]
fn guards_keep_to_the_first_column() {
    let mut tree = read("a b", false);
    let word = tree.elems.iter().position(|e| e.text == "b").unwrap();
    let plain = with_context(&tree, |cx| lower_loose_token(cx, word));
    assert_eq!(plain, Ir::Verbatim { text: "b".to_string(), force_break: false });
    tree.elems[word].kind = SyntaxKind::Guard;
    let guard = with_context(&tree, |cx| lower_loose_token(cx, word));
    assert_eq!(guard, Ir::ColumnZero("b".to_string()));
    tree.elems[word].kind = SyntaxKind::DocMargin;
    let margin = with_context(&tree, |cx| lower_loose_token(LowerCtx { in_doc_region: true, ..cx }, word));
    assert_eq!(margin, Ir::Nil);
}

#[test]
fn spans_overlap_where_they_share_a_position() {
    let span = |start, end| Span { start, end };
    assert!(ranges_overlap(span(0, 3), span(2, 4)));
    assert!(!ranges_overlap(span(0, 2), span(2, 4)));
}

// ---- entry points --------------------------------------------------------------------------

#[test]
fn errors_are_refused_with_their_number() {
    let mut doc = document("a");
    doc.errors = 3;
    let refused = FormatError::ParseErrors { count: 3 };
    let message = "input contains 3 parser diagnostic(s); formatter only supports parseable input";
    assert_eq!(refused.message(), message);
    assert_eq!(tex_ls::format::format(&doc).err(), Some(FormatError::ParseErrors { count: 3 }));
    assert_eq!(format_with_style(&doc, FormatStyle::default()).err(), Some(FormatError::ParseErrors { count: 3 }));
    let nothing = Signatures::empty();
    assert_eq!(
        format_with_style_flavored_with_signatures(&doc, FormatStyle::default(), &nothing).err(),
        Some(FormatError::ParseErrors { count: 3 })
    );
    assert_eq!(
        format_with_style_flavored_sentence(&doc, FormatStyle::default(), &Vec::new()).err(),
        Some(refused)
    );
    assert!(format_node(&doc, FormatStyle::default()).is_ok());
}

#[test]
fn the_first_error_token_is_refused() {
    let mut doc = document("a \"b\" c");
    let token = doc.tree.elems.iter().position(|e| e.text == "\"b\"").unwrap();
    doc.tree.elems[token].kind = SyntaxKind::Error;
    let later = doc.tree.elems.iter().position(|e| e.text == "c").unwrap();
    doc.tree.elems[later].kind = SyntaxKind::Error;
    let error = tex_ls::format::format(&doc).err().unwrap();
    assert_eq!(
        error,
        FormatError::UnsupportedConstruct { kind: SyntaxKind::Error, snippet: "\"b\"".to_string() }
    );
    assert_eq!(error.message(), "unsupported construct for formatter: ERROR near \"\\\"b\\\"\"");
    assert!(format_node(&doc, FormatStyle::default()).is_err());
    let all = Span { start: 0, end: 7 };
    let nothing = Signatures::empty();
    assert!(format_node_range_with_signatures(&doc, FormatStyle::default(), &nothing, all).is_err());
}

#[test]
fn a_range_selects_the_blocks_that_it_meets() {
    let source = "a   a\n\nb   b\n\nc   c\n";
    let doc = document(source);
    let start = source.find('b').unwrap();
    let range = Span { start, end: start + 5 };
    let nothing = Signatures::empty();
    let style = FormatStyle::default();
    let draft = format_node_range_with_signatures(&doc, style, &nothing, range).unwrap();
    assert!(draft.fragment);
    assert_eq!(print(&draft, style), "b b");
    let draft =
        format_node_range_with_signatures_sentence(&doc, style, &nothing, range, &doc.boundaries).unwrap();
    assert_eq!(print(&draft, style), "b b");
}

#[test]
fn a_range_in_a_document_selects_blocks_of_its_body() {
    let source = "\\begin{document}\na   a\n\nb   b\n\\end{document}\n";
    let doc = known(source);
    let start = source.find("b   b").unwrap();
    let range = Span { start, end: start + 5 };
    let style = FormatStyle::default();
    let draft = format_node_range_with_signatures(&doc, style, &Signatures::empty(), range).unwrap();
    assert_eq!(print(&draft, style), "b b");
}

#[test]
fn own_definitions_win_over_external_ones() {
    let style = FormatStyle::default();
    let grid = || Signatures {
        commands: Vec::new(),
        environments: vec![EnvSig { no_indent: true, ..environment("box") }],
    };
    let plain = || Signatures { commands: Vec::new(), environments: vec![environment("box")] };
    let source = "\\begin{box}\nx\n\\end{box}\n";
    let flush = "\\begin{box}\nx\n\\end{box}\n";
    let deep = "\\begin{box}\n  x\n\\end{box}\n";
    let mut doc = document(source);
    assert_eq!(formatted(&doc), deep);
    let draft = format_node_with_signatures(&doc, style, &grid()).unwrap();
    assert_eq!(print(&draft, style), flush);
    doc.definitions = plain();
    let draft = format_node_with_signatures(&doc, style, &grid()).unwrap();
    assert_eq!(print(&draft, style), deep);
    doc.definitions = Signatures::empty();
    doc.builtin = plain();
    let draft = format_node_with_signatures_sentence(&doc, style, &grid(), &doc.boundaries).unwrap();
    assert_eq!(print(&draft, style), flush);
}

#[test]
fn declarations_are_the_whole_scope() {
    let declared = || ResolvedDeclarations {
        commands: Vec::new(),
        environments: vec![EnvSig { no_indent: true, ..environment("box") }],
    };
    assert!(declared_scope(declared()).environment("box").unwrap().no_indent);
    assert!(declared_scope(declared()).command("box").is_none());
    let doc = document("\\begin{box}\nx\n\\end{box}\n");
    let style = FormatStyle::default();
    let draft = format_with_declarations_sentence(&doc, style, &doc.boundaries, declared()).unwrap();
    assert_eq!(print(&draft, style), "\\begin{box}\nx\n\\end{box}\n");
}

#[test]
fn line_breaks_are_spelled_as_the_source_spells_them() {
    let mut doc = document("a\n\nb\n");
    doc.line_ending = LineEnding::Crlf;
    assert_eq!(formatted(&doc), "a\r\n\r\nb\r\n");
    let style = FormatStyle { line_ending: LineEnding::Lf, ..FormatStyle::default() };
    assert_eq!(print(&format_with_style(&doc, style).unwrap(), style), "a\n\nb\n");
}

#[test]
fn a_tree_with_crossing_subtrees_is_not_well_formed() {
    let mut tree = read("\\foo{a b}", false);
    assert!(tree.is_well_formed());
    let last = tree.elems.len();
    tree.elems[1].end = last + 1;
    assert!(!tree.is_well_formed());
}

// ---- pieces of a document ------------------------------------------------------------------

/// A document of tokens alone.
fn of_tokens(tokens: &[(SyntaxKind, &str)]) -> Tree {
    let mut at = 0;
    let mut elems: Vec<Elem> = Vec::new();
    elems.push(Elem {
        kind: SyntaxKind::Root,
        token: false,
        parent: 0,
        end: tokens.len() + 1,
        span: Span { start: 0, end: tokens.iter().map(|t| t.1.len()).sum() },
        text: String::new(),
        facts: Facts::none(),
    });
    for (i, (kind, text)) in tokens.iter().enumerate() {
        let mut facts = Facts::none();
        if *text == "\\ExplSyntaxOn" {
            facts.toggle = Some(ExplToggle::On);
        }
        if *text == "\\ExplSyntaxOff" {
            facts.toggle = Some(ExplToggle::Off);
        }
        if *kind == SyntaxKind::Word {
            let atom = MathAtom { class: MathClass::Ord, delimiter: None };
            facts.letters.push(WordAtom { atom, start: 0, end: text.chars().count() });
        }
        elems.push(Elem {
            kind: *kind,
            token: true,
            parent: 0,
            end: i + 2,
            span: Span { start: at, end: at + text.len() },
            text: text.to_string(),
            facts,
        });
        at += text.len();
    }
    Tree { elems }
}

fn found(tokens: &[(SyntaxKind, &str)]) -> Vec<(usize, usize)> {
    let tree = of_tokens(tokens);
    assert!(tree.is_well_formed());
    expl3_regions(&tree).into_iter().map(|r| (r.start, r.end)).collect()
}

#[test]
fn a_run_of_guarded_lines_goes_on_to_the_end_of_the_file() {
    let on = (SyntaxKind::ControlWord, "\\ExplSyntaxOn");
    let newline = (SyntaxKind::Newline, "\n");
    let guard = (SyntaxKind::Guard, "%<a>");
    let word = (SyntaxKind::Word, "x");
    assert_eq!(found(&[on, newline, guard, word, newline, guard, word]), vec![(0, 14)]);
    assert_eq!(found(&[on, newline, guard, word, newline, guard, word, newline]), vec![(0, 14)]);
    // One guarded line alone stays.
    assert_eq!(found(&[on, newline, guard, word]), vec![(0, 19)]);
    assert_eq!(found(&[on, newline, guard, word, newline, word]), vec![(0, 21)]);
}

#[test]
fn documentation_lines_hold_no_code() {
    let on = (SyntaxKind::ControlWord, "\\ExplSyntaxOn");
    let newline = (SyntaxKind::Newline, "\n");
    let margin = (SyntaxKind::DocMargin, "%");
    let word = (SyntaxKind::Word, "x");
    assert_eq!(found(&[on, newline, margin, word, newline, word]), vec![]);
}

#[test]
fn empty_spans_overlap_with_none() {
    let span = |start, end| Span { start, end };
    assert!(!ranges_overlap(span(1, 1), span(0, 3)));
    assert!(!ranges_overlap(span(0, 3), span(1, 1)));
    assert!(!ranges_overlap(span(2, 2), span(2, 2)));
    assert!(ranges_overlap(span(2, 3), span(2, 3)));
    assert!(ranges_overlap(span(2, 9), span(0, 3)) && ranges_overlap(span(0, 3), span(2, 9)));
}

#[test]
fn cut_ends_of_rules_are_named_by_four_words() {
    for (word, expected) in
        [("(l)", true), ("(r)", true), ("(lr)", true), ("(rl)", true), ("(ll)", false), ("(rr)", false), ("()", false), ("(lrl)", false), ("l", false)]
    {
        let tree = of_tokens(&[(SyntaxKind::Word, word)]);
        assert_eq!(is_paren_trim_word(&tree, 1), expected, "{word}");
    }
    let tree = of_tokens(&[(SyntaxKind::Comment, "(l)")]);
    assert!(!is_paren_trim_word(&tree, 1));
}

#[test]
fn each_comment_behind_a_row_is_kept() {
    let source = "\\begin{tabular}{ll}\na & b \\\\ % c1\n% c2\nc & d \\\\\n\\end{tabular}\n";
    let out = formatted(&known(source));
    assert_eq!(out, "\\begin{tabular}{ll}\n  a & b \\\\ % c1\n  % c2\n  c & d \\\\\n\\end{tabular}\n");
    assert_eq!(formatted(&known(&out)), out);
}

#[test]
fn a_layout_moves_white_space_only() {
    let bare = |text: &str| text.chars().filter(|c| !c.is_whitespace()).collect::<String>();
    for source in [
        "one\ntwo   three\n",
        "a \\\\ b\nc\n",
        "\\begin{tabular}{ll}\na&bb\\\\\nccc & d\\\\\n\\end{tabular}\n",
        "\\begin{itemize}\n\\item one\ntwo\n\\item three\n\\end{itemize}\n",
        "\\ExplSyntaxOn\n\\tl_set:Nn \\l_x { v }\n\\bool_if:NF \\l_bool { body }\n\\ExplSyntaxOff\n",
        "$a+b=c$ and \\emph{x  y}\n",
    ] {
        let doc = known(source);
        assert!(doc.is_well_formed(), "{source}");
        let draft = tex_ls::format::format(&doc).unwrap();
        assert_eq!(bare(&draft.layout.print_flat()), bare(source));
        assert_eq!(bare(&formatted(&doc)), bare(source));
        // The layout is that of the lowering, not the source as it stands.
        assert!(!matches!(draft.layout, Ir::Verbatim { .. }), "{source}");
    }
}

#[test]
fn ink_is_what_is_not_white_space() {
    assert!(has_ink_of("a b\n", " ab", false));
    assert!(!has_ink_of("ab", "ba", false));
    assert!(has_ink_of("ab\u{3000}", "a b", false));
    assert!(!has_ink_of("% a", "a", false));
    assert!(has_ink_of("% a", "a", true));
    assert!(!has_ink_of("a", "aa", true));
    let choice = |flat: &str, broken: &str| Ir::if_break(Ir::verbatim(flat), Ir::verbatim(broken));
    assert!(forms_have_one_ink(&choice("a b", "a\nb"), false));
    assert!(!forms_have_one_ink(&choice("a b", "a"), false));
    assert!(!forms_have_one_ink(&Ir::indent(Ir::bounded_align(Ir::verbatim("a"), Ir::verbatim("b"))), false));
    assert!(forms_have_one_ink(&Ir::bounded_align(Ir::verbatim("a"), Ir::verbatim("a ")), false));
    assert!(!forms_have_one_ink(&Ir::margin_prefix("%", Ir::verbatim("a")), false));
    assert!(forms_have_one_ink(&Ir::margin_prefix("%", Ir::verbatim("a")), true));
    assert!(forms_have_one_ink(&Ir::margin_prefix("  ", Ir::verbatim("a")), false));
}

#[test]
fn a_faithful_layout_ends_the_line_of_each_comment() {
    let newline = (SyntaxKind::Newline, "\n");
    let tree = of_tokens(&[(SyntaxKind::Word, "a"), (SyntaxKind::Comment, "%c"), newline, (SyntaxKind::Word, "b")]);
    let whole = vec![0];
    let parts = |gap: Ir| {
        let mut list = IrList::new();
        list.push(Ir::verbatim("a %c"));
        list.push(gap);
        list.push(Ir::verbatim("b"));
        Ir::concat(list)
    };
    assert!(is_faithful(&tree, &whole, &parts(Ir::HardLine), false));
    assert!(is_faithful(&tree, &whole, &parts(Ir::EmptyLine), false));
    // The gap of a document is broken, that of a group that holds no break may not be.
    assert!(is_faithful(&tree, &whole, &parts(Ir::Line), false));
    assert!(!is_faithful(&tree, &whole, &Ir::group(parts(Ir::Line)), false));
    assert!(is_faithful(&tree, &whole, &Ir::group(parts(Ir::HardLine)), false));
    assert!(!is_faithful(&tree, &whole, &parts(Ir::space()), false));
    assert!(!is_faithful(&tree, &whole, &Ir::verbatim("b a %c"), false));
    let choice = |flat: Ir, broken: Ir| Ir::group(Ir::if_break(flat, broken));
    assert!(is_faithful(&tree, &whole, &choice(parts(Ir::HardLine), parts(Ir::EmptyLine)), false));
    assert!(!is_faithful(&tree, &whole, &choice(Ir::verbatim("a %c b"), Ir::verbatim("a %c\nb")), false));
    // The last comment may be the last thing.
    let tree = of_tokens(&[(SyntaxKind::Word, "a"), (SyntaxKind::Comment, "%c")]);
    assert!(is_faithful(&tree, &whole, &Ir::verbatim("a %c"), false));
}

#[test]
fn a_document_is_laid_out_as_its_tree() {
    let doc = known("one\ntwo\n\n\\section{A}\nthree\n");
    let style = FormatStyle::default();
    let whole = format_with_style(&doc, style).unwrap();
    let tree = format_node(&doc, style).unwrap();
    assert_eq!(whole.layout, tree.layout);
    let nothing = Signatures::empty();
    let beside = format_with_style_flavored_with_signatures(&doc, style, &nothing).unwrap();
    assert_eq!(beside.layout, whole.layout);
}

#[test]
fn the_rules_of_sentences_count_in_sentence_modes_only() {
    let doc = known("One two. Three\nfour.\n");
    let ends = vec![Boundary { word: "two.".to_string(), next: "Three".to_string() }];
    for wrap in [WrapMode::Reflow, WrapMode::Stable, WrapMode::Preserve] {
        let style = FormatStyle { wrap, ..FormatStyle::default() };
        let with = format_with_style_flavored_sentence(&doc, style, &ends).unwrap();
        let without = format_with_style_flavored_sentence(&doc, style, &Vec::new()).unwrap();
        assert_eq!(with.layout, without.layout);
    }
}

#[test]
fn the_target_of_the_stable_mode_is_part_of_the_style() {
    let doc = known("one two three four five six\n");
    let narrow = FormatStyle { wrap: WrapMode::Stable, stable_target: 9, ..FormatStyle::default() };
    let wide = FormatStyle { stable_target: 80, ..narrow };
    let a = format_with_style(&doc, narrow).unwrap();
    let b = format_with_style(&doc, wide).unwrap();
    assert_ne!(a.layout, b.layout);
}

#[test]
fn a_document_needs_the_regions_and_letters_of_its_tree() {
    let source = "\\ExplSyntaxOn\nx\n\\ExplSyntaxOff\n";
    let mut doc = document(source);
    assert!(doc.is_well_formed());
    doc.regions.clear();
    assert!(!doc.is_well_formed());
    let mut doc = document("one two\n");
    for e in &mut doc.tree.elems {
        e.facts.letters.clear();
    }
    assert!(!doc.is_well_formed());
    let mut tree = of_tokens(&[(SyntaxKind::Word, "a")]);
    tree.elems[1].span.end = 0;
    assert!(!tree.is_well_formed());
}

/// The text without white space, and without percent signs where the source is documented.
fn bare(text: &str, margins: bool) -> String {
    text.chars().filter(|c| !c.is_whitespace() && !(margins && *c == '%')).collect()
}

#[test]
fn comments_keep_their_place_and_end_their_line() {
    for (source, expected) in [
        ("a   % c1\nb    c\n", "a % c1\nb c\n"),
        ("% lead\na   b\n", "% lead\na b\n"),
        ("a   b\n% mid\nc   d\n\ne   f % tail\n", "a b\n% mid\nc d\n\ne f % tail\n"),
        ("\\foo{a   % c\n b   c}\n", "\\foo{a % c\n  b c}\n"),
        ("$a  +b % c\n= c$   and   d\n", "$a + b % c\n= c$ and d\n"),
        ("\\section{A} % c\ntext   text\n", "\\section{A} % c\n\ntext text\n"),
        (
            "\\begin{tabular}{ll} % c0\na&b\\\\ % c1\n% c2\nccc&d\\\\\n\\end{tabular}\n",
            "\\begin{tabular}{ll}% c0\n  a   & b \\\\ % c1\n  % c2\n  ccc & d \\\\\n\\end{tabular}\n",
        ),
        (
            "\\begin{itemize} % c0\n\\item one   two % c1\n   three\n% c2\n\\item   x\n\\end{itemize}\nz   z\n",
            "\\begin{itemize}% c0\n  \\item one two % c1\n        three\n        % c2\n  \\item x\n\\end{itemize}\nz z\n",
        ),
        (
            "\\ExplSyntaxOn\n\\tl_set:Nn \\l_x { v } % c1\n% c2\n\\bool_if:NTF \\l_bool { body % c3\n } { other }\n\\ExplSyntaxOff\n",
            "\\ExplSyntaxOn\n\\tl_set:Nn \\l_x { v }\n% c1\n% c2\n\\bool_if:NTF \\l_bool\n  {\n    body % c3\n  }\n  { other }\n\\ExplSyntaxOff\n",
        ),
        ("a\\footnote{x   y % c\n  z}   b\n", "a\\footnote{x y % c\n  z} b\n"),
        ("{\\bf   a % c\n b}   c\n", "{\\bf a % c\n  b} c\n"),
        (
            "\\begin{tabular}{l}\n\\begin{tabular}{l}\nx   y % c\n\\\\\n\\end{tabular} \\\\\n\\end{tabular}\n",
            "\\begin{tabular}{l}\n  \\begin{tabular}{l}\n    x y % c\n    \\\\\n  \\end{tabular} \\\\\n\\end{tabular}\n",
        ),
        (
            "\\begin{document} % c\none   two\n\n% x\n\\section{A}   % s\nthree\n\\end{document} % end\n",
            "\\begin{document}% c\none two\n\n% x\n\n\\section{A} % s\n\nthree\n\\end{document} % end\n",
        ),
        (
            "\\begin{align}\n a &= b % c1\n \\\\ % c2\n c &= d\n\\end{align}\n",
            "\\begin{align}\n  a &= b % c1\n  \\\\\n  % c2\n  c &= d\n\\end{align}\n",
        ),
    ] {
        let doc = known(source);
        let out = formatted(&doc);
        assert_eq!(out, expected);
        assert_eq!(bare(&out, false), bare(source, false));
        for wrap in [WrapMode::Stable, WrapMode::Sentence, WrapMode::Semantic, WrapMode::Preserve] {
            assert_eq!(bare(&in_mode(source, wrap), false), bare(source, false));
        }
    }
}

#[test]
fn documented_sources_keep_all_but_their_margins() {
    for source in [
        "% one   two\n% three\n%\n% four   five\n",
        "% one   two\n%    \\begin{macrocode}\n\\foo   \\bar\n%    \\end{macrocode}\n% more   text\n",
        "%    \\begin{macrocode}\n\\ExplSyntaxOn\n\\tl_set:Nn   \\l_x { v } % c\n\\ExplSyntaxOff\n%    \\end{macrocode}\n",
        "% \\begin{itemize}\n% \\item one   two\n% three\n% \\end{itemize}\n",
    ] {
        let doc = Document { builtin: standard(), ..of_tree(read(source, true)) };
        assert!(doc.is_well_formed());
        let draft = tex_ls::format::format(&doc).unwrap();
        let flat = draft.layout.print_flat();
        assert_eq!(bare(&flat, true), bare(source, true));
        assert!(forms_have_one_ink(&draft.layout, true));
        // It has been laid out.
        assert_ne!(flat, source);
    }
}

#[test]
fn a_range_keeps_the_ink_of_its_blocks() {
    let source = "one   two % c\n\nthree   four % d\n\nfive   six\n";
    let doc = known(source);
    let style = FormatStyle::default();
    let at = source.find("three").unwrap();
    let range = Span { start: at, end: at + 1 };
    let draft = format_node_range_with_signatures(&doc, style, &Signatures::empty(), range).unwrap();
    assert_eq!(draft.layout.print_flat(), "three four % d");
    assert!(draft.fragment);
}

/// The tree without one of its tokens.
fn without_token(tree: Tree, at: usize) -> Tree {
    let gone = tree.elems[at].text.len();
    let from = tree.elems[at].span.start;
    let moved = |place: usize| if place > from { place - gone } else { place };
    let mut elems = tree.elems;
    elems.remove(at);
    for e in &mut elems {
        e.end = if e.end > at { e.end - 1 } else { e.end };
        e.parent = if e.parent > at { e.parent - 1 } else { e.parent };
        e.span = Span { start: moved(e.span.start), end: moved(e.span.end) };
    }
    Tree { elems }
}

#[test]
fn a_block_that_would_gain_ink_is_reproduced_alone() {
    let tree = read("one   two\n\n$a^{b  +c}$ x   y\n\nf   g\n", false);
    let brace = (0..tree.elems.len()).find(|&i| tree.token_is(i, SyntaxKind::RBrace)).unwrap();
    let doc = of_tree(without_token(tree, brace));
    assert_eq!(formatted(&doc), "one two\n\n$a^{b  +c$ x   y\n\nf g\n");
}

#[test]
fn chunks_inside_chunks_count_once() {
    // Two environments of code, one in the other, in a document with a margin.
    let span = |start, end| Span { start, end };
    let node = |kind, parent, end, span, name: Option<&str>| Elem {
        kind,
        token: false,
        parent,
        end,
        span,
        text: String::new(),
        facts: Facts { name: name.map(|n| n.to_string()), ..Facts::none() },
    };
    let token = |kind, at: usize, parent, start, text: &str, toggle| Elem {
        kind,
        token: true,
        parent,
        end: at + 1,
        span: span(start, start + text.len()),
        text: text.to_string(),
        facts: Facts { toggle, ..Facts::none() },
    };
    let elems = vec![
        node(SyntaxKind::Root, 0, 12, span(0, 37), None),
        token(SyntaxKind::ControlWord, 1, 0, 0, "\\ExplSyntaxOn", Some(ExplToggle::On)),
        token(SyntaxKind::DocMargin, 2, 0, 13, "%", None),
        token(SyntaxKind::Newline, 3, 0, 14, "\n", None),
        node(SyntaxKind::Environment, 0, 12, span(15, 37), Some("macrocode")),
        node(SyntaxKind::Begin, 4, 7, span(15, 21), None),
        token(SyntaxKind::ControlWord, 6, 5, 15, "\\begin", None),
        node(SyntaxKind::Environment, 4, 11, span(21, 33), Some("macrocode*")),
        node(SyntaxKind::Begin, 7, 10, span(21, 27), None),
        token(SyntaxKind::ControlWord, 9, 8, 21, "\\begin", None),
        token(SyntaxKind::ControlWord, 10, 7, 27, "\\inner", None),
        token(SyntaxKind::ControlWord, 11, 4, 33, "\\out", None),
    ];
    let tree = Tree { elems };
    assert!(tree.is_well_formed());
    let found: Vec<(usize, usize)> = expl3_regions(&tree).into_iter().map(|r| (r.start, r.end)).collect();
    assert_eq!(found, vec![(21, 37)]);
}

#[test]
fn parts_that_do_not_nest_are_found() {
    let good = read("a {b} c\n\nd\n", false);
    assert!(good.is_well_formed());
    for i in 1..good.elems.len() {
        let mut tree = read("a {b} c\n\nd\n", false);
        tree.elems[i].parent += 1;
        assert!(!tree.is_well_formed(), "parent of {i}");
        let mut tree = read("a {b} c\n\nd\n", false);
        tree.elems[i].end += 1;
        assert!(!tree.is_well_formed(), "end of {i}");
        let mut tree = read("a {b} c\n\nd\n", false);
        tree.elems[i].span.end += 100;
        assert!(!tree.is_well_formed(), "span of {i}");
    }
}

#[test]
fn a_tie_stays_with_what_stands_before_it() {
    let source = "\\ExplSyntaxOn\n\\tl_set:Nn   \\l_x { a~   b~c }\n\\ExplSyntaxOff\n";
    let out = formatted(&document(source));
    assert!(out.contains("a~b~c"), "{out}");
    assert_eq!(bare(&out, false), bare(source, false));
}

//! The entry points: a document that has been read becomes a layout, or is refused.

use vstd::prelude::*;

use crate::context::{letters_in_words, Boundary, FormatContext, LowerCtx};
use crate::finish::{finish_text, finished};
use crate::fidelity::{
    comments_end_lines, faithful_layouts_say_it_in_every_form, one_element_has_its_source, says, text_of,
    the_source_is_faithful,
};
use crate::ink::{every_form_has_the_ink, forms_agree, ink, reads};
use crate::ir::{flat_text, Ir, Layout};
use crate::lower::{blocks, checked, is_block, lower_node, node, portion};
use crate::regions::{ordered, regions_of};
use crate::settings::{decimal, decimal_text, default_style, FormatStyle, LineEnding, WrapMode};
use crate::signatures::{declared_scope, ResolvedDeclarations, Scope, Signatures};
use crate::syntax::{Span, SyntaxKind, Tree};

verus! {

/// Why a document is not laid out. One that was read with errors, or that holds a token of an
/// error, is refused rather than reshaped.
#[derive(Debug, PartialEq, Eq)]
pub enum FormatError {
    /// The document was read with that many errors.
    ParseErrors { count: usize },
    /// The tree holds a token that lowering does not handle.
    UnsupportedConstruct { kind: SyntaxKind, snippet: String },
}

/// How a text is quoted in a message.
pub uninterp spec fn quoted(text: Seq<char>) -> Seq<char>;

/// The debug form of [`str`], as [`std::format`] writes it: it depends on the text alone.
#[verifier::external_body]
fn quote(text: &str) -> (r: String)
    ensures
        r@ == quoted(text@),
{
    format!("{text:?}")
}

impl FormatError {
    /// What the error says.
    pub open spec fn says(&self) -> Seq<char> {
        match self {
            FormatError::ParseErrors { count } => "input contains "@ + decimal(*count as nat)
                + " parser diagnostic(s); formatter only supports parseable input"@,
            FormatError::UnsupportedConstruct { kind, snippet } => "unsupported construct for formatter: "@
                + kind.called() + " near "@ + quoted(snippet@),
        }
    }

    /// What the error says.
    pub fn message(&self) -> (r: String)
        ensures
            r@ == self.says(),
    {
        match self {
            FormatError::ParseErrors { count } => {
                let mut out = "input contains ".to_owned();
                out.append(decimal_text(*count as u64).as_str());
                out.append(" parser diagnostic(s); formatter only supports parseable input");
                out
            },
            FormatError::UnsupportedConstruct { kind, snippet } => {
                let mut out = "unsupported construct for formatter: ".to_owned();
                out.append(kind.name());
                out.append(" near ");
                out.append(quote(snippet.as_str()).as_str());
                out
            },
        }
    }
}

/// A document that has been read.
pub struct Document {
    pub tree: Tree,
    /// How many errors it was read with.
    pub errors: usize,
    /// What it defines itself.
    pub definitions: Signatures,
    /// What is known of every document.
    pub builtin: Signatures,
    /// The stretches whose layout its author has turned off.
    pub suppressed: Vec<Span>,
    /// Where its sentences end by the rules of its language alone.
    pub boundaries: Vec<Boundary>,
    /// How it spells its line breaks.
    pub line_ending: LineEnding,
    /// Its stretches of expl3 code, as [`crate::regions::expl3_regions`] finds them.
    pub regions: Vec<Span>,
}

impl Document {
    /// The tree is as its fields say, the math atoms of its words make them up, and the expl3
    /// regions are those of the tree, in order.
    pub open spec fn wf(&self) -> bool {
        &&& self.tree.wf()
        &&& letters_in_words(&self.tree)
        &&& self.regions@ == regions_of(&self.tree)
        &&& ordered(self.regions@)
    }
}

/// What a document is laid out as. It is a text once it has been printed.
pub struct Draft {
    pub layout: Ir,
    /// The layout is that of a part of the document.
    pub fragment: bool,
    /// How line breaks are spelled.
    pub ending: LineEnding,
}

impl Draft {
    /// The text of the layout as it goes into a file: without blanks at its end, with one line
    /// break behind a whole document that is not empty, and with its line breaks spelled.
    pub fn finish(&self, printed: &str) -> (r: String)
        ensures
            r@ == finished(printed@, self.fragment, self.ending),
    {
        finish_text(printed, self.fragment, self.ending)
    }
}

/// The first token of an error from `i` on.
pub open spec fn error_token(t: &Tree, i: int) -> Option<int>
    decreases t.n() - i,
{
    if i < 0 || i >= t.n() {
        None
    } else if t.tok_is(i, SyntaxKind::Error) {
        Some(i)
    } else {
        error_token(t, i + 1)
    }
}

/// Whether a tree is refused with an error: the first token of an error is named.
pub open spec fn refused_for_token(t: &Tree, e: FormatError) -> bool {
    match (error_token(t, 0), e) {
        (Some(i), FormatError::UnsupportedConstruct { kind, snippet }) => kind == SyntaxKind::Error && snippet@
            == t.txt(i),
        _ => false,
    }
}

/// Refuses a tree with a token of an error.
pub fn validate_supported_tokens(t: &Tree) -> (r: Result<(), FormatError>)
    ensures
        r is Ok <==> error_token(t, 0) is None,
        r matches Err(e) ==> refused_for_token(t, e),
{
    let mut i: usize = 0;
    while i < t.len()
        invariant
            i <= t.n(),
            error_token(t, i as int) == error_token(t, 0),
        decreases t.n() - i,
    {
        if t.token_is(i, SyntaxKind::Error) {
            return Err(FormatError::UnsupportedConstruct { kind: t.kind(i), snippet: t.text(i).to_owned() });
        }
        i = i + 1;
    }
    Ok(())
}

/// How the line breaks of a document are spelled under a style.
pub open spec fn ending_under(doc: &Document, style: FormatStyle) -> LineEnding {
    style.line_ending.over(doc.line_ending)
}

fn resolve_line_ending(doc: &Document, style: FormatStyle) -> (r: LineEnding)
    ensures
        r == ending_under(doc, style),
{
    style.line_ending.resolve(doc.line_ending)
}

/// Whether a tree is that of a documented source: it has a margin or a guard.
pub open spec fn documented(t: &Tree) -> bool {
    exists|i: int|
        0 <= i < t.n() && (#[trigger] t.tok_is(i, SyntaxKind::DocMargin) || t.tok_is(i, SyntaxKind::Guard))
}

fn is_documented(t: &Tree) -> (r: bool)
    ensures
        r == documented(t),
{
    let mut i: usize = 0;
    while i < t.len()
        invariant
            i <= t.n(),
            forall|k: int|
                0 <= k < i ==> !#[trigger] t.tok_is(k, SyntaxKind::DocMargin) && !t.tok_is(k, SyntaxKind::Guard),
        decreases t.n() - i,
    {
        if t.token_is(i, SyntaxKind::DocMargin) || t.token_is(i, SyntaxKind::Guard) {
            assert(t.tok_is(i as int, SyntaxKind::DocMargin) || t.tok_is(i as int, SyntaxKind::Guard));
            return true;
        }
        i = i + 1;
    }
    false
}

/// Whether a scope holds nothing.
pub open spec fn knows_nothing(scope: &Signatures) -> bool {
    scope.commands@.len() == 0 && scope.environments@.len() == 0
}

/// A scope that holds nothing is none.
pub open spec fn known<'a>(scope: &'a Signatures) -> Option<&'a Signatures> {
    if knows_nothing(scope) {
        None
    } else {
        Some(scope)
    }
}

fn scope_of<'a>(scope: &'a Signatures) -> (r: Option<&'a Signatures>)
    ensures
        r == known(scope),
{
    if scope.commands.len() == 0 && scope.environments.len() == 0 {
        None
    } else {
        Some(scope)
    }
}

/// Whether a wrap mode asks where sentences end.
pub open spec fn by_sentence(wrap: WrapMode) -> bool {
    wrap == WrapMode::Sentence || wrap == WrapMode::Semantic
}

/// What the lowering of a document starts with. The sentence rules of a run are consulted in the
/// modes that break between sentences, and in no other.
pub open spec fn root_context<'a>(
    doc: &'a Document,
    style: FormatStyle,
    sentence: &'a Vec<Boundary>,
    external: Option<&'a Signatures>,
    range: Option<Span>,
) -> LowerCtx<'a> {
    LowerCtx {
        t: &doc.tree,
        wrap: style.wrap,
        item_indent: style.item_indent,
        indent_width: style.indent_width,
        math_wrap: style.math_wrap.under(style.wrap),
        stable_target: style.stable_target,
        signatures: Scope { own: &doc.definitions, external, builtin: &doc.builtin },
        regions: &doc.regions,
        suppressed: &doc.suppressed,
        boundaries: if by_sentence(style.wrap) { sentence } else { &doc.boundaries },
        range,
        margin_probe: false,
        preserve_nested: false,
        in_doc_region: false,
        in_cell: false,
        absorbed: None,
        omitted: None,
        is_dtx: documented(&doc.tree),
    }
}

/// The layout of a document, or of the blocks that `range` meets.
pub open spec fn layout_of(
    doc: &Document,
    style: FormatStyle,
    sentence: &Vec<Boundary>,
    external: Option<&Signatures>,
    range: Option<Span>,
) -> Layout {
    node(root_context(doc, style, sentence, external, range), 0, (doc.tree.n() + 1) as nat)
}

/// The elements that a layout of a document is that of: the whole document, or the blocks that
/// `range` meets.
pub open spec fn selected(doc: &Document, range: Option<Span>) -> Seq<usize> {
    match range {
        Some(range) => if doc.tree.k(0) == SyntaxKind::Root {
            blocks(&doc.tree, doc.tree.kids(0), range, doc.tree.kids(0).len() as int)
        } else {
            seq![0usize]
        },
        None => seq![0usize],
    }
}

fn make_context<'a>(
    doc: &'a Document,
    ctx: &FormatContext<'a>,
    external: Option<&'a Signatures>,
    range: Option<Span>,
) -> (r: LowerCtx<'a>)
    requires
        doc.wf(),
    ensures
        r == root_context(doc, ctx.style_of(), ctx.sentence_of(), external, range),
        r.ok(),
{
    proof {
        reveal(LowerCtx::ok);
    }
    let style = ctx.style();
    LowerCtx {
        t: &doc.tree,
        wrap: style.wrap,
        item_indent: style.item_indent,
        indent_width: style.indent_width,
        math_wrap: style.math_wrap.resolve(style.wrap),
        stable_target: style.stable_target,
        signatures: Scope { own: &doc.definitions, external, builtin: &doc.builtin },
        regions: &doc.regions,
        suppressed: &doc.suppressed,
        boundaries: match style.wrap {
            WrapMode::Sentence => ctx.sentence(),
            WrapMode::Semantic => ctx.sentence(),
            _ => &doc.boundaries,
        },
        range,
        margin_probe: false,
        preserve_nested: false,
        in_doc_region: false,
        in_cell: false,
        absorbed: None,
        omitted: None,
        is_dtx: is_documented(&doc.tree),
    }
}

fn format_root(doc: &Document, ctx: &FormatContext, external: Option<&Signatures>, range: Option<Span>) -> (r: Ir)
    requires
        doc.wf(),
    ensures
        r@ == layout_of(doc, ctx.style_of(), ctx.sentence_of(), external, range),
{
    let cx = make_context(doc, ctx, external, range);
    lower_node(cx, 0, Ghost((doc.tree.n() + 1) as nat))
}

/// What [`format_node_with_signatures_sentence`] and [`format_node_range_with_signatures_sentence`]
/// promise: a tree without a token of an error is laid out, and any other is refused for the
/// first one.
pub open spec fn formats_node(
    doc: &Document,
    style: FormatStyle,
    external: Option<&Signatures>,
    range: Option<Span>,
    sentence: &Vec<Boundary>,
    r: Result<Draft, FormatError>,
) -> bool {
    match r {
        Ok(draft) => {
            &&& error_token(&doc.tree, 0) is None
            &&& draft.layout@ == layout_of(doc, style, sentence, external, range)
            &&& draft.fragment == (range is Some)
            &&& draft.ending == ending_under(doc, style)
        },
        Err(e) => refused_for_token(&doc.tree, e),
    }
}

/// What the entry points that read a document promise: one with errors is refused with their
/// number, and any other is laid out as its tree is.
pub open spec fn formats(
    doc: &Document,
    style: FormatStyle,
    external: Option<&Signatures>,
    sentence: &Vec<Boundary>,
    r: Result<Draft, FormatError>,
) -> bool {
    if doc.errors > 0 {
        r == Err::<Draft, FormatError>(FormatError::ParseErrors { count: doc.errors })
    } else {
        formats_node(doc, style, external, None, sentence, r)
    }
}

/// Lays a document out in the default style.
pub fn format(doc: &Document) -> (r: Result<Draft, FormatError>)
    requires
        doc.wf(),
    ensures
        formats(doc, default_style(), None, &doc.boundaries, r),
{
    format_with_style(doc, FormatStyle::default())
}

/// Lays a document out in a style.
pub fn format_with_style(doc: &Document, style: FormatStyle) -> (r: Result<Draft, FormatError>)
    requires
        doc.wf(),
    ensures
        formats(doc, style, None, &doc.boundaries, r),
{
    format_with_style_flavored(doc, style)
}

/// Lays a document out in a style. The document has been read in the way that files of its kind
/// are.
pub fn format_with_style_flavored(doc: &Document, style: FormatStyle) -> (r: Result<Draft, FormatError>)
    requires
        doc.wf(),
    ensures
        formats(doc, style, None, &doc.boundaries, r),
{
    if doc.errors > 0 {
        return Err(FormatError::ParseErrors { count: doc.errors });
    }
    format_node(doc, style)
}

/// Lays a document out in a style whose sentence rules are configured: `sentence` is where
/// sentences end by them.
pub fn format_with_style_flavored_sentence(doc: &Document, style: FormatStyle, sentence: &Vec<Boundary>) -> (r: Result<
    Draft,
    FormatError,
>)
    requires
        doc.wf(),
    ensures
        formats(doc, style, None, sentence, r),
{
    if doc.errors > 0 {
        return Err(FormatError::ParseErrors { count: doc.errors });
    }
    format_node_scoped(doc, style, None, None, sentence)
}

/// Lays a document out that has been read under the declarations of its project, which are all
/// that its scope holds.
pub fn format_with_declarations_sentence(
    doc: &Document,
    style: FormatStyle,
    sentence: &Vec<Boundary>,
    declared: ResolvedDeclarations,
) -> (r: Result<Draft, FormatError>)
    requires
        doc.wf(),
    ensures
        formats(
            doc,
            style,
            known(&(Signatures { commands: declared.commands, environments: declared.environments })),
            sentence,
            r,
        ),
{
    if doc.errors > 0 {
        return Err(FormatError::ParseErrors { count: doc.errors });
    }
    let scope = declared_scope(declared);
    format_node_with_signatures_sentence(doc, style, &scope, sentence)
}

/// Lays a document out beside what the packages that it loads define. Its own definitions win
/// over them.
pub fn format_with_style_flavored_with_signatures(
    doc: &Document,
    style: FormatStyle,
    external: &Signatures,
) -> (r: Result<Draft, FormatError>)
    requires
        doc.wf(),
    ensures
        formats(doc, style, known(external), &doc.boundaries, r),
{
    if doc.errors > 0 {
        return Err(FormatError::ParseErrors { count: doc.errors });
    }
    format_node_with_signatures(doc, style, external)
}

fn format_node_scoped(
    doc: &Document,
    style: FormatStyle,
    external: Option<&Signatures>,
    range: Option<Span>,
    sentence: &Vec<Boundary>,
) -> (r: Result<Draft, FormatError>)
    requires
        doc.wf(),
    ensures
        formats_node(doc, style, external, range, sentence, r),
{
    match validate_supported_tokens(&doc.tree) {
        Err(e) => Err(e),
        Ok(_) => {
            let ctx = FormatContext::with_sentence(style, sentence);
            let layout = format_root(doc, &ctx, external, range);
            Ok(Draft { layout, fragment: range.is_some(), ending: resolve_line_ending(doc, style) })
        },
    }
}

/// Lays the tree of a document out. The caller has seen to its errors; a token of an error is
/// still refused.
pub fn format_node(doc: &Document, style: FormatStyle) -> (r: Result<Draft, FormatError>)
    requires
        doc.wf(),
    ensures
        formats_node(doc, style, None, None, &doc.boundaries, r),
{
    format_node_scoped(doc, style, None, None, &doc.boundaries)
}

/// Lays the tree of a document out beside what the packages that it loads define.
pub fn format_node_with_signatures(doc: &Document, style: FormatStyle, external: &Signatures) -> (r: Result<
    Draft,
    FormatError,
>)
    requires
        doc.wf(),
    ensures
        formats_node(doc, style, known(external), None, &doc.boundaries, r),
{
    format_node_with_signatures_sentence(doc, style, external, &doc.boundaries)
}

/// Lays the tree of a document out in a style whose sentence rules are configured.
pub fn format_node_with_signatures_sentence(
    doc: &Document,
    style: FormatStyle,
    external: &Signatures,
    sentence: &Vec<Boundary>,
) -> (r: Result<Draft, FormatError>)
    requires
        doc.wf(),
    ensures
        formats_node(doc, style, known(external), None, sentence, r),
{
    format_node_scoped(doc, style, scope_of(external), None, sentence)
}

/// Lays out the blocks of a document that `range` meets. What stands before them counts as it
/// does for the whole document.
pub fn format_node_range_with_signatures(
    doc: &Document,
    style: FormatStyle,
    external: &Signatures,
    range: Span,
) -> (r: Result<Draft, FormatError>)
    requires
        doc.wf(),
    ensures
        formats_node(doc, style, known(external), Some(range), &doc.boundaries, r),
{
    format_node_range_with_signatures_sentence(doc, style, external, range, &doc.boundaries)
}

/// Lays out the blocks of a document that `range` meets, in a style whose sentence rules are
/// configured.
pub fn format_node_range_with_signatures_sentence(
    doc: &Document,
    style: FormatStyle,
    external: &Signatures,
    range: Span,
    sentence: &Vec<Boundary>,
) -> (r: Result<Draft, FormatError>)
    requires
        doc.wf(),
    ensures
        formats_node(doc, style, known(external), Some(range), sentence, r),
{
    format_node_scoped(doc, style, scope_of(external), Some(range), sentence)
}

/// A document that was read with errors, or that holds a token of an error, is refused, and no
/// other is.
pub proof fn only_clean_documents_are_laid_out(
    doc: Document,
    style: FormatStyle,
    external: Option<&Signatures>,
    sentence: Vec<Boundary>,
    r: Result<Draft, FormatError>,
)
    requires
        formats(&doc, style, external, &sentence, r),
    ensures
        r is Ok <==> doc.errors == 0 && error_token(&doc.tree, 0) is None,
{
}

/// Whether two runs came to the same: both laid out the same layout, or both refused for the same
/// reason.
pub open spec fn same_result(a: Result<Draft, FormatError>, b: Result<Draft, FormatError>) -> bool {
    match (a, b) {
        (Ok(x), Ok(y)) => x.layout@ == y.layout@ && x.fragment == y.fragment && x.ending == y.ending,
        (Err(x), Err(y)) => x.says() == y.says(),
        _ => false,
    }
}

/// Laying out a document that was read without errors is laying out its tree.
pub proof fn documents_are_laid_out_as_their_trees(
    doc: Document,
    style: FormatStyle,
    external: Option<&Signatures>,
    sentence: Vec<Boundary>,
    whole: Result<Draft, FormatError>,
    tree: Result<Draft, FormatError>,
)
    requires
        doc.errors == 0,
        formats(&doc, style, external, &sentence, whole),
        formats_node(&doc, style, external, None, &sentence, tree),
    ensures
        same_result(whole, tree),
{
}

/// Laying a document, its tree or a range of it out beside a scope that holds nothing is laying it
/// out alone.
pub proof fn an_empty_scope_changes_nothing(
    doc: Document,
    style: FormatStyle,
    external: Signatures,
    range: Option<Span>,
    sentence: Vec<Boundary>,
    beside: Result<Draft, FormatError>,
    alone: Result<Draft, FormatError>,
)
    requires
        knows_nothing(&external),
        formats_node(&doc, style, known(&external), range, &sentence, beside),
        formats_node(&doc, style, None, range, &sentence, alone),
    ensures
        layout_of(&doc, style, &sentence, known(&external), range) == layout_of(&doc, style, &sentence, None, range),
        same_result(beside, alone),
{
}

/// The modes that do not break between sentences do not ask where sentences end.
pub proof fn only_sentence_modes_ask_where_sentences_end(
    doc: Document,
    style: FormatStyle,
    external: Option<&Signatures>,
    range: Option<Span>,
    sentence: Vec<Boundary>,
    other: Vec<Boundary>,
)
    requires
        !by_sentence(style.wrap),
    ensures
        layout_of(&doc, style, &sentence, external, range) == layout_of(&doc, style, &other, external, range),
{
}

/// The layout of a document, or of the blocks that a range meets, moves white space only. It has
/// the ink of the source, in order, with or without comments; in whatever form it is printed it
/// has that ink, and each comment ends its line. In a documented source the margins are put before
/// each line anew: there percent signs do not count as ink. That a comment ends its line is asked
/// of the source.
pub proof fn layout_keeps_the_ink(
    doc: &Document,
    style: FormatStyle,
    sentence: &Vec<Boundary>,
    external: Option<&Signatures>,
    range: Option<Span>,
    text: Seq<char>,
)
    ensures
        ({
            let l = layout_of(doc, style, sentence, external, range);
            let es = selected(doc, range);
            let margins = documented(&doc.tree);
            &&& ink(flat_text(l), margins) == ink(text_of(&doc.tree, es), margins)
            &&& forms_agree(l, margins)
            &&& reads(l, true, text) ==> ink(text, margins) == ink(text_of(&doc.tree, es), margins)
            &&& reads(l, true, text) && comments_end_lines(&doc.tree, es, margins) ==> says(&doc.tree, es, text, margins)
        }),
        text_of(&doc.tree, selected(doc, None)) == doc.tree.src(0),
{
    let l = layout_of(doc, style, sentence, external, range);
    let cx = root_context(doc, style, sentence, external, range);
    let es = selected(doc, range);
    let margins = documented(&doc.tree);
    reveal(checked);
    assert(is_block(cx, 0));
    assert(portion(cx, 0) == es);
    one_element_has_its_source(&doc.tree, 0);
    if reads(l, true, text) {
        every_form_has_the_ink(l, true, text, margins);
        if comments_end_lines(&doc.tree, es, margins) {
            the_source_is_faithful(&doc.tree, es, margins);
            faithful_layouts_say_it_in_every_form(&doc.tree, es, l, margins, text);
        }
    }
}

proof fn lemma_error_token(t: &Tree, i: int)
    requires
        0 <= i,
    ensures
        error_token(t, i) is None <==> forall|k: int| i <= k < t.n() ==> !#[trigger] t.tok_is(k, SyntaxKind::Error),
        error_token(t, i) matches Some(e) ==> i <= e < t.n() && t.tok_is(e, SyntaxKind::Error) && forall|k: int|
            i <= k < e ==> !#[trigger] t.tok_is(k, SyntaxKind::Error),
    decreases t.n() - i,
{
    if i < t.n() {
        lemma_error_token(t, i + 1);
    }
}

/// A refused tree is refused for its first token of an error, and only one that holds such a
/// token is refused.
pub proof fn refusal_names_the_first_error_token(t: Tree)
    ensures
        error_token(&t, 0) is None <==> forall|k: int| 0 <= k < t.n() ==> !#[trigger] t.tok_is(k, SyntaxKind::Error),
        error_token(&t, 0) matches Some(e) ==> 0 <= e < t.n() && t.tok_is(e, SyntaxKind::Error) && forall|k: int|
            0 <= k < e ==> !#[trigger] t.tok_is(k, SyntaxKind::Error),
{
    lemma_error_token(&t, 0);
}

} // verus!

//! What the arguments of known commands mean.

use smol_str::SmolStr;
use vstd::prelude::*;

use crate::syntax::{SyntaxKind, Tree};
use crate::text::{chars_of, ends_with, small_str, small_string, str_eq, trim};
use crate::text::{has_tail, small, split, trimmed};

verus! {

/// The cross-reference that a command makes.
#[derive(Clone, Copy, Debug, PartialEq, Eq, Structural)]
pub enum RefCommand {
    Ref,
    PageRef,
    EqRef,
    AutoRef,
    NameRef,
    Cref,
    CrefUpper,
    Vref,
    VrefUpper,
    CpageRef,
}

/// What a glossary definition defines.
#[derive(Clone, Copy, Debug, PartialEq, Eq, Structural)]
pub enum GlossaryDefKind {
    Entry,
    Acronym,
    Abbreviation,
}

/// How a color is defined.
#[derive(Clone, Copy, Debug, PartialEq, Eq, Structural)]
pub enum ColorDefKind {
    DefineColor,
    ProvideColor,
    Colorlet,
}

/// What an argument holds.
#[derive(Clone, Copy, Debug, PartialEq, Eq, Structural)]
pub enum ArgumentRole {
    BibliographyItem,
    Label,
    Reference(RefCommand),
    Citation(CiteCommand),
    GlossaryDefinition(GlossaryDefKind),
    GlossaryUse,
    ColorDefinition(ColorDefKind),
}

/// What a citation command does.
#[derive(Clone, Copy, Debug, PartialEq, Eq, Structural)]
pub enum CiteCommand {
    /// The first braced argument is a list of citation keys.
    Cite,
    /// The list of keys may also hold the wildcard `*`.
    Nocite,
}

/// How a file argument contributes to a document.
#[derive(Clone, Copy, Debug, PartialEq, Eq, Structural)]
pub enum SourceRole {
    Input,
    Include,
    Import,
    SubImport,
    SubFile,
    SubFileInclude,
    Glossary,
}

/// What kind of file an argument names.
#[derive(Clone, Copy, Debug, PartialEq, Eq, Structural)]
pub enum FileRoleKind {
    Source(SourceRole),
    Bibliography,
    Package,
    Class,
    Graphics,
    Svg,
    Inkscape,
    Raw,
}

/// Where a command names a file.
#[derive(Clone, Copy, Debug, PartialEq, Eq, Structural)]
pub struct FileRole {
    pub kind: FileRoleKind,
    /// The index of the argument that holds the name.
    pub argument: usize,
    /// The index of the argument that holds the directory.
    pub directory: Option<usize>,
    /// Whether the argument is a list of names.
    pub list: bool,
}

/// The commands whose key list names citations, apart from `nocite`.
pub open spec fn cite_name(name: Seq<char>) -> bool {
    name == "cites"@
        || name == "Cites"@
        || name == "parencites"@
        || name == "Parencites"@
        || name == "textcites"@
        || name == "Textcites"@
        || name == "autocites"@
        || name == "Autocites"@
        || name == "footcites"@
        || name == "Footcites"@
        || name == "smartcites"@
        || name == "Smartcites"@
        || name == "supercites"@
        || name == "volcite"@
        || name == "Volcite"@
        || name == "pvolcite"@
        || name == "Pvolcite"@
        || name == "fvolcite"@
        || name == "Fvolcite"@
        || name == "tvolcite"@
        || name == "Tvolcite"@
        || name == "avolcite"@
        || name == "Avolcite"@
        || name == "svolcite"@
        || name == "Svolcite"@
        || name == "volcites"@
        || name == "Volcites"@
        || name == "pvolcites"@
        || name == "Pvolcites"@
        || name == "fvolcites"@
        || name == "Fvolcites"@
        || name == "tvolcites"@
        || name == "Tvolcites"@
        || name == "avolcites"@
        || name == "Avolcites"@
        || name == "svolcites"@
        || name == "Svolcites"@
        || name == "cite"@
        || name == "Cite"@
        || name == "citep"@
        || name == "Citep"@
        || name == "citet"@
        || name == "Citet"@
        || name == "citealt"@
        || name == "Citealt"@
        || name == "citealp"@
        || name == "Citealp"@
        || name == "citenum"@
        || name == "citeauthor"@
        || name == "Citeauthor"@
        || name == "citefullauthor"@
        || name == "Citefullauthor"@
        || name == "citeyear"@
        || name == "citeyearpar"@
        || name == "citetalias"@
        || name == "citepalias"@
        || name == "parencite"@
        || name == "Parencite"@
        || name == "footcite"@
        || name == "Footcite"@
        || name == "footcitetext"@
        || name == "Footcitetext"@
        || name == "textcite"@
        || name == "Textcite"@
        || name == "smartcite"@
        || name == "Smartcite"@
        || name == "autocite"@
        || name == "Autocite"@
        || name == "supercite"@
        || name == "fullcite"@
        || name == "footfullcite"@
        || name == "citetitle"@
        || name == "Citetitle"@
        || name == "citedate"@
        || name == "citeurl"@
        || name == "notecite"@
        || name == "Notecite"@
        || name == "pnotecite"@
        || name == "Pnotecite"@
        || name == "fnotecite"@
        || name == "Fnotecite"@
        || name == "citename"@
        || name == "citelist"@
        || name == "citefield"@
}

fn is_cite(name: &str) -> (r: bool)
    ensures
        r == cite_name(name@),
{
    str_eq(name, "cites")
        || str_eq(name, "Cites")
        || str_eq(name, "parencites")
        || str_eq(name, "Parencites")
        || str_eq(name, "textcites")
        || str_eq(name, "Textcites")
        || str_eq(name, "autocites")
        || str_eq(name, "Autocites")
        || str_eq(name, "footcites")
        || str_eq(name, "Footcites")
        || str_eq(name, "smartcites")
        || str_eq(name, "Smartcites")
        || str_eq(name, "supercites")
        || str_eq(name, "volcite")
        || str_eq(name, "Volcite")
        || str_eq(name, "pvolcite")
        || str_eq(name, "Pvolcite")
        || str_eq(name, "fvolcite")
        || str_eq(name, "Fvolcite")
        || str_eq(name, "tvolcite")
        || str_eq(name, "Tvolcite")
        || str_eq(name, "avolcite")
        || str_eq(name, "Avolcite")
        || str_eq(name, "svolcite")
        || str_eq(name, "Svolcite")
        || str_eq(name, "volcites")
        || str_eq(name, "Volcites")
        || str_eq(name, "pvolcites")
        || str_eq(name, "Pvolcites")
        || str_eq(name, "fvolcites")
        || str_eq(name, "Fvolcites")
        || str_eq(name, "tvolcites")
        || str_eq(name, "Tvolcites")
        || str_eq(name, "avolcites")
        || str_eq(name, "Avolcites")
        || str_eq(name, "svolcites")
        || str_eq(name, "Svolcites")
        || str_eq(name, "cite")
        || str_eq(name, "Cite")
        || str_eq(name, "citep")
        || str_eq(name, "Citep")
        || str_eq(name, "citet")
        || str_eq(name, "Citet")
        || str_eq(name, "citealt")
        || str_eq(name, "Citealt")
        || str_eq(name, "citealp")
        || str_eq(name, "Citealp")
        || str_eq(name, "citenum")
        || str_eq(name, "citeauthor")
        || str_eq(name, "Citeauthor")
        || str_eq(name, "citefullauthor")
        || str_eq(name, "Citefullauthor")
        || str_eq(name, "citeyear")
        || str_eq(name, "citeyearpar")
        || str_eq(name, "citetalias")
        || str_eq(name, "citepalias")
        || str_eq(name, "parencite")
        || str_eq(name, "Parencite")
        || str_eq(name, "footcite")
        || str_eq(name, "Footcite")
        || str_eq(name, "footcitetext")
        || str_eq(name, "Footcitetext")
        || str_eq(name, "textcite")
        || str_eq(name, "Textcite")
        || str_eq(name, "smartcite")
        || str_eq(name, "Smartcite")
        || str_eq(name, "autocite")
        || str_eq(name, "Autocite")
        || str_eq(name, "supercite")
        || str_eq(name, "fullcite")
        || str_eq(name, "footfullcite")
        || str_eq(name, "citetitle")
        || str_eq(name, "Citetitle")
        || str_eq(name, "citedate")
        || str_eq(name, "citeurl")
        || str_eq(name, "notecite")
        || str_eq(name, "Notecite")
        || str_eq(name, "pnotecite")
        || str_eq(name, "Pnotecite")
        || str_eq(name, "fnotecite")
        || str_eq(name, "Fnotecite")
        || str_eq(name, "citename")
        || str_eq(name, "citelist")
        || str_eq(name, "citefield")
}

/// The citation commands whose key follows a volume argument.
pub open spec fn volume_cite_name(name: Seq<char>) -> bool {
    name == "volcite"@
        || name == "Volcite"@
        || name == "pvolcite"@
        || name == "Pvolcite"@
        || name == "fvolcite"@
        || name == "Fvolcite"@
        || name == "tvolcite"@
        || name == "Tvolcite"@
        || name == "avolcite"@
        || name == "Avolcite"@
        || name == "svolcite"@
        || name == "Svolcite"@
        || name == "volcites"@
        || name == "Volcites"@
        || name == "pvolcites"@
        || name == "Pvolcites"@
        || name == "fvolcites"@
        || name == "Fvolcites"@
        || name == "tvolcites"@
        || name == "Tvolcites"@
        || name == "avolcites"@
        || name == "Avolcites"@
        || name == "svolcites"@
        || name == "Svolcites"@
}

fn is_volume_cite(name: &str) -> (r: bool)
    ensures
        r == volume_cite_name(name@),
{
    str_eq(name, "volcite")
        || str_eq(name, "Volcite")
        || str_eq(name, "pvolcite")
        || str_eq(name, "Pvolcite")
        || str_eq(name, "fvolcite")
        || str_eq(name, "Fvolcite")
        || str_eq(name, "tvolcite")
        || str_eq(name, "Tvolcite")
        || str_eq(name, "avolcite")
        || str_eq(name, "Avolcite")
        || str_eq(name, "svolcite")
        || str_eq(name, "Svolcite")
        || str_eq(name, "volcites")
        || str_eq(name, "Volcites")
        || str_eq(name, "pvolcites")
        || str_eq(name, "Pvolcites")
        || str_eq(name, "fvolcites")
        || str_eq(name, "Fvolcites")
        || str_eq(name, "tvolcites")
        || str_eq(name, "Tvolcites")
        || str_eq(name, "avolcites")
        || str_eq(name, "Avolcites")
        || str_eq(name, "svolcites")
        || str_eq(name, "Svolcites")
}

/// The commands that print or use a glossary entry.
pub open spec fn gls_name(name: Seq<char>) -> bool {
    name == "gls"@
        || name == "Gls"@
        || name == "GLS"@
        || name == "glspl"@
        || name == "Glspl"@
        || name == "GLSpl"@
        || name == "glstext"@
        || name == "Glstext"@
        || name == "glsfirst"@
        || name == "Glsfirst"@
        || name == "glsplural"@
        || name == "Glsplural"@
        || name == "glsfirstplural"@
        || name == "Glsfirstplural"@
        || name == "glsdesc"@
        || name == "Glsdesc"@
        || name == "glsname"@
        || name == "Glsname"@
        || name == "glssymbol"@
        || name == "Glssymbol"@
        || name == "glslink"@
        || name == "glsdisp"@
        || name == "glsadd"@
        || name == "glsxtrshort"@
        || name == "Glsxtrshort"@
        || name == "glsxtrlong"@
        || name == "Glsxtrlong"@
        || name == "glsxtrfull"@
        || name == "Glsxtrfull"@
}

fn is_gls(name: &str) -> (r: bool)
    ensures
        r == gls_name(name@),
{
    str_eq(name, "gls")
        || str_eq(name, "Gls")
        || str_eq(name, "GLS")
        || str_eq(name, "glspl")
        || str_eq(name, "Glspl")
        || str_eq(name, "GLSpl")
        || str_eq(name, "glstext")
        || str_eq(name, "Glstext")
        || str_eq(name, "glsfirst")
        || str_eq(name, "Glsfirst")
        || str_eq(name, "glsplural")
        || str_eq(name, "Glsplural")
        || str_eq(name, "glsfirstplural")
        || str_eq(name, "Glsfirstplural")
        || str_eq(name, "glsdesc")
        || str_eq(name, "Glsdesc")
        || str_eq(name, "glsname")
        || str_eq(name, "Glsname")
        || str_eq(name, "glssymbol")
        || str_eq(name, "Glssymbol")
        || str_eq(name, "glslink")
        || str_eq(name, "glsdisp")
        || str_eq(name, "glsadd")
        || str_eq(name, "glsxtrshort")
        || str_eq(name, "Glsxtrshort")
        || str_eq(name, "glsxtrlong")
        || str_eq(name, "Glsxtrlong")
        || str_eq(name, "glsxtrfull")
        || str_eq(name, "Glsxtrfull")
}

/// The short names of the acronym commands.
pub open spec fn ac_name(name: Seq<char>) -> bool {
    name == "ac"@
        || name == "Ac"@
        || name == "AC"@
        || name == "acs"@
        || name == "acl"@
        || name == "acf"@
        || name == "acp"@
        || name == "acsp"@
        || name == "aclp"@
        || name == "acfp"@
        || name == "iac"@
        || name == "Iac"@
}

fn is_ac(name: &str) -> (r: bool)
    ensures
        r == ac_name(name@),
{
    str_eq(name, "ac")
        || str_eq(name, "Ac")
        || str_eq(name, "AC")
        || str_eq(name, "acs")
        || str_eq(name, "acl")
        || str_eq(name, "acf")
        || str_eq(name, "acp")
        || str_eq(name, "acsp")
        || str_eq(name, "aclp")
        || str_eq(name, "acfp")
        || str_eq(name, "iac")
        || str_eq(name, "Iac")
}

/// The acronym commands: a stem in one of three casings, a form, and `pl` for the plural.
pub open spec fn acr_name(name: Seq<char>) -> bool {
    name == "acrshort"@
        || name == "acrshortpl"@
        || name == "acrlong"@
        || name == "acrlongpl"@
        || name == "acrfull"@
        || name == "acrfullpl"@
        || name == "Acrshort"@
        || name == "Acrshortpl"@
        || name == "Acrlong"@
        || name == "Acrlongpl"@
        || name == "Acrfull"@
        || name == "Acrfullpl"@
        || name == "ACRshort"@
        || name == "ACRshortpl"@
        || name == "ACRlong"@
        || name == "ACRlongpl"@
        || name == "ACRfull"@
        || name == "ACRfullpl"@
}

fn is_acr(name: &str) -> (r: bool)
    ensures
        r == acr_name(name@),
{
    str_eq(name, "acrshort")
        || str_eq(name, "acrshortpl")
        || str_eq(name, "acrlong")
        || str_eq(name, "acrlongpl")
        || str_eq(name, "acrfull")
        || str_eq(name, "acrfullpl")
        || str_eq(name, "Acrshort")
        || str_eq(name, "Acrshortpl")
        || str_eq(name, "Acrlong")
        || str_eq(name, "Acrlongpl")
        || str_eq(name, "Acrfull")
        || str_eq(name, "Acrfullpl")
        || str_eq(name, "ACRshort")
        || str_eq(name, "ACRshortpl")
        || str_eq(name, "ACRlong")
        || str_eq(name, "ACRlongpl")
        || str_eq(name, "ACRfull")
        || str_eq(name, "ACRfullpl")
}

/// The citation command of a name.
pub open spec fn cite_command_of(name: Seq<char>) -> Option<CiteCommand> {
    if name == "nocite"@ {
        Some(CiteCommand::Nocite)
    } else if cite_name(name) {
        Some(CiteCommand::Cite)
    } else {
        None
    }
}

/// The citation command of a name. The table is closed: a name that merely starts with `cite`
/// says nothing of its arguments.
pub fn cite_command(name: &str) -> (r: Option<CiteCommand>)
    ensures
        r == cite_command_of(name@),
{
    if str_eq(name, "nocite") {
        Some(CiteCommand::Nocite)
    } else if is_cite(name) {
        Some(CiteCommand::Cite)
    } else {
        None
    }
}

/// The reference command of a name.
pub open spec fn ref_command_of(name: Seq<char>) -> Option<RefCommand> {
    if name == "ref"@ {
        Some(RefCommand::Ref)
    } else if name == "pageref"@ {
        Some(RefCommand::PageRef)
    } else if name == "eqref"@ {
        Some(RefCommand::EqRef)
    } else if name == "autoref"@ {
        Some(RefCommand::AutoRef)
    } else if name == "nameref"@ {
        Some(RefCommand::NameRef)
    } else if name == "cref"@ {
        Some(RefCommand::Cref)
    } else if name == "Cref"@ {
        Some(RefCommand::CrefUpper)
    } else if name == "vref"@ {
        Some(RefCommand::Vref)
    } else if name == "Vref"@ {
        Some(RefCommand::VrefUpper)
    } else if name == "cpageref"@
        || name == "Cpageref"@
        || name == "crefrange"@
        || name == "Crefrange"@
        || name == "cpagerefrange"@
        || name == "Cpagerefrange"@ {
        Some(RefCommand::CpageRef)
    } else if name == "zref"@
        || name == "zpageref"@
        || name == "zcref"@
        || name == "zCref"@
        || name == "labelcref"@
        || name == "labelcpageref"@
        || name == "namecref"@
        || name == "nameCref"@
        || name == "lcnamecref"@ {
        Some(RefCommand::Ref)
    } else {
        None
    }
}

/// The reference command of a name.
pub fn ref_command(name: &str) -> (r: Option<RefCommand>)
    ensures
        r == ref_command_of(name@),
{
    if str_eq(name, "ref") {
        Some(RefCommand::Ref)
    } else if str_eq(name, "pageref") {
        Some(RefCommand::PageRef)
    } else if str_eq(name, "eqref") {
        Some(RefCommand::EqRef)
    } else if str_eq(name, "autoref") {
        Some(RefCommand::AutoRef)
    } else if str_eq(name, "nameref") {
        Some(RefCommand::NameRef)
    } else if str_eq(name, "cref") {
        Some(RefCommand::Cref)
    } else if str_eq(name, "Cref") {
        Some(RefCommand::CrefUpper)
    } else if str_eq(name, "vref") {
        Some(RefCommand::Vref)
    } else if str_eq(name, "Vref") {
        Some(RefCommand::VrefUpper)
    } else if str_eq(name, "cpageref")
        || str_eq(name, "Cpageref")
        || str_eq(name, "crefrange")
        || str_eq(name, "Crefrange")
        || str_eq(name, "cpagerefrange")
        || str_eq(name, "Cpagerefrange") {
        Some(RefCommand::CpageRef)
    } else if str_eq(name, "zref")
        || str_eq(name, "zpageref")
        || str_eq(name, "zcref")
        || str_eq(name, "zCref")
        || str_eq(name, "labelcref")
        || str_eq(name, "labelcpageref")
        || str_eq(name, "namecref")
        || str_eq(name, "nameCref")
        || str_eq(name, "lcnamecref") {
        Some(RefCommand::Ref)
    } else {
        None
    }
}

/// The glossary definition of a name. Its key is the first group.
pub open spec fn glossary_definer_of(name: Seq<char>) -> Option<GlossaryDefKind> {
    if name == "newglossaryentry"@
        || name == "longnewglossaryentry"@
        || name == "provideglossaryentry"@
        || name == "longprovideglossaryentry"@ {
        Some(GlossaryDefKind::Entry)
    } else if name == "newacronym"@
        || name == "DeclareAcronym"@
        || name == "newacro"@
        || name == "acrodef"@ {
        Some(GlossaryDefKind::Acronym)
    } else if name == "newabbreviation"@ {
        Some(GlossaryDefKind::Abbreviation)
    } else {
        None
    }
}

/// The glossary definition of a name. Its key is the first group.
pub(crate) fn glossary_definer(name: &str) -> (r: Option<GlossaryDefKind>)
    ensures
        r == glossary_definer_of(name@),
{
    if str_eq(name, "newglossaryentry")
        || str_eq(name, "longnewglossaryentry")
        || str_eq(name, "provideglossaryentry")
        || str_eq(name, "longprovideglossaryentry") {
        Some(GlossaryDefKind::Entry)
    } else if str_eq(name, "newacronym")
        || str_eq(name, "DeclareAcronym")
        || str_eq(name, "newacro")
        || str_eq(name, "acrodef") {
        Some(GlossaryDefKind::Acronym)
    } else if str_eq(name, "newabbreviation") {
        Some(GlossaryDefKind::Abbreviation)
    } else {
        None
    }
}

/// The color definition of a name. The color is the first group.
pub open spec fn color_definer_of(name: Seq<char>) -> Option<ColorDefKind> {
    if name == "definecolor"@ {
        Some(ColorDefKind::DefineColor)
    } else if name == "providecolor"@ {
        Some(ColorDefKind::ProvideColor)
    } else if name == "colorlet"@ {
        Some(ColorDefKind::Colorlet)
    } else {
        None
    }
}

/// The color definition of a name. The color is the first group.
pub(crate) fn color_definer(name: &str) -> (r: Option<ColorDefKind>)
    ensures
        r == color_definer_of(name@),
{
    if str_eq(name, "definecolor") {
        Some(ColorDefKind::DefineColor)
    } else if str_eq(name, "providecolor") {
        Some(ColorDefKind::ProvideColor)
    } else if str_eq(name, "colorlet") {
        Some(ColorDefKind::Colorlet)
    } else {
        None
    }
}

/// Whether a name is a glossary or acronym reference whose first group is an entry key.
pub open spec fn glossary_ref_name(name: Seq<char>) -> bool {
    ac_name(name) || gls_name(name) || acr_name(name)
}

/// Whether a name is a glossary or acronym reference whose first group is an entry key.
pub fn is_glossary_ref_command(name: &str) -> (r: bool)
    ensures
        r == glossary_ref_name(name@),
{
    is_ac(name) || is_gls(name) || is_acr(name)
}

/// Whether the braced argument `index` of a citation command holds keys. A volume citation has
/// its key behind the volume, and a command on `cites` repeats its arguments.
pub open spec fn holds_keys(name: Seq<char>, index: int) -> bool {
    let repeated = name == "Cites"@ || has_tail(name, "cites"@);
    if volume_cite_name(name) {
        index % 2 == 1 && (repeated || index == 1)
    } else {
        index == 0 || repeated
    }
}

/// What the braced argument `index` of a command holds.
pub open spec fn key_role(name: Seq<char>, index: int) -> Option<ArgumentRole> {
    if name == "bibitem"@ && index == 0 {
        Some(ArgumentRole::BibliographyItem)
    } else if (name == "label"@ || name == "zlabel"@) && index == 0 {
        Some(ArgumentRole::Label)
    } else if ref_command_of(name) is Some {
        if index < reference_count(name) {
            Some(ArgumentRole::Reference(ref_command_of(name)->0))
        } else {
            None
        }
    } else if cite_command_of(name) is Some {
        if holds_keys(name, index) {
            Some(ArgumentRole::Citation(cite_command_of(name)->0))
        } else {
            None
        }
    } else if index != 0 {
        None
    } else if glossary_definer_of(name) is Some {
        Some(ArgumentRole::GlossaryDefinition(glossary_definer_of(name)->0))
    } else if glossary_ref_name(name) {
        Some(ArgumentRole::GlossaryUse)
    } else if color_definer_of(name) is Some {
        Some(ArgumentRole::ColorDefinition(color_definer_of(name)->0))
    } else {
        None
    }
}

/// How many arguments of a reference command hold labels: a range has two ends.
pub open spec fn reference_count(name: Seq<char>) -> int {
    if name == "crefrange"@ || name == "Crefrange"@ || name == "cpagerefrange"@ || name == "Cpagerefrange"@ {
        2
    } else {
        1
    }
}

/// What the braced argument `index` of a command holds. Optional arguments do not count.
pub fn key_argument_role(name: &str, index: usize) -> (r: Option<ArgumentRole>)
    ensures
        r == key_role(name@, index as int),
{
    if str_eq(name, "bibitem") && index == 0 {
        return Some(ArgumentRole::BibliographyItem);
    }
    if (str_eq(name, "label") || str_eq(name, "zlabel")) && index == 0 {
        return Some(ArgumentRole::Label);
    }
    if let Some(kind) = ref_command(name) {
        let count: usize = if str_eq(name, "crefrange") || str_eq(name, "Crefrange") || str_eq(name, "cpagerefrange")
            || str_eq(name, "Cpagerefrange") {
            2
        } else {
            1
        };
        return if index < count {
            Some(ArgumentRole::Reference(kind))
        } else {
            None
        };
    }
    if let Some(kind) = cite_command(name) {
        let repeated = str_eq(name, "Cites") || ends_with(name, "cites");
        let key = if is_volume_cite(name) {
            index % 2 == 1 && (repeated || index == 1)
        } else {
            index == 0 || repeated
        };
        return if key {
            Some(ArgumentRole::Citation(kind))
        } else {
            None
        };
    }
    if index != 0 {
        return None;
    }
    if let Some(kind) = glossary_definer(name) {
        return Some(ArgumentRole::GlossaryDefinition(kind));
    }
    if is_glossary_ref_command(name) {
        return Some(ArgumentRole::GlossaryUse);
    }
    match color_definer(name) {
        Some(kind) => Some(ArgumentRole::ColorDefinition(kind)),
        None => None,
    }
}

/// Where a command of this name takes a file.
pub open spec fn file_role_of(name: Seq<char>) -> Option<FileRole> {
    if name == "input"@ {
        Some(FileRole { kind: FileRoleKind::Source(SourceRole::Input), argument: 0, directory: None, list: false })
    } else if name == "include"@ {
        Some(FileRole { kind: FileRoleKind::Source(SourceRole::Include), argument: 0, directory: None, list: false })
    } else if name == "import"@
        || name == "inputfrom"@
        || name == "includefrom"@ {
        Some(FileRole { kind: FileRoleKind::Source(SourceRole::Import), argument: 1, directory: Some(0), list: false })
    } else if name == "subimport"@
        || name == "subinputfrom"@
        || name == "subincludefrom"@ {
        Some(FileRole { kind: FileRoleKind::Source(SourceRole::SubImport), argument: 1, directory: Some(0), list: false })
    } else if name == "subfile"@ {
        Some(FileRole { kind: FileRoleKind::Source(SourceRole::SubFile), argument: 0, directory: None, list: false })
    } else if name == "subfileinclude"@ {
        Some(FileRole { kind: FileRoleKind::Source(SourceRole::SubFileInclude), argument: 0, directory: None, list: false })
    } else if name == "loadglsentries"@ {
        Some(FileRole { kind: FileRoleKind::Source(SourceRole::Glossary), argument: 0, directory: None, list: false })
    } else if name == "bibliography"@ {
        Some(FileRole { kind: FileRoleKind::Bibliography, argument: 0, directory: None, list: true })
    } else if name == "addbibresource"@ {
        Some(FileRole { kind: FileRoleKind::Bibliography, argument: 0, directory: None, list: false })
    } else if name == "usepackage"@
        || name == "RequirePackage"@
        || name == "RequirePackageWithOptions"@ {
        Some(FileRole { kind: FileRoleKind::Package, argument: 0, directory: None, list: true })
    } else if name == "documentclass"@
        || name == "LoadClass"@
        || name == "LoadClassWithOptions"@ {
        Some(FileRole { kind: FileRoleKind::Class, argument: 0, directory: None, list: false })
    } else if name == "includegraphics"@ {
        Some(FileRole { kind: FileRoleKind::Graphics, argument: 0, directory: None, list: false })
    } else if name == "includesvg"@ {
        Some(FileRole { kind: FileRoleKind::Svg, argument: 0, directory: None, list: false })
    } else if name == "includeinkscape"@ {
        Some(FileRole { kind: FileRoleKind::Inkscape, argument: 0, directory: None, list: false })
    } else if name == "verbatiminput"@
        || name == "VerbatimInput"@
        || name == "lstinputlisting"@ {
        Some(FileRole { kind: FileRoleKind::Raw, argument: 0, directory: None, list: false })
    } else if name == "inputminted"@ {
        Some(FileRole { kind: FileRoleKind::Raw, argument: 1, directory: None, list: false })
    } else {
        None
    }
}

/// Where a command of this name takes a file.
pub fn file_role(name: &str) -> (r: Option<FileRole>)
    ensures
        r == file_role_of(name@),
{
    if str_eq(name, "input") {
        Some(FileRole { kind: FileRoleKind::Source(SourceRole::Input), argument: 0, directory: None, list: false })
    } else if str_eq(name, "include") {
        Some(FileRole { kind: FileRoleKind::Source(SourceRole::Include), argument: 0, directory: None, list: false })
    } else if str_eq(name, "import")
        || str_eq(name, "inputfrom")
        || str_eq(name, "includefrom") {
        Some(FileRole { kind: FileRoleKind::Source(SourceRole::Import), argument: 1, directory: Some(0), list: false })
    } else if str_eq(name, "subimport")
        || str_eq(name, "subinputfrom")
        || str_eq(name, "subincludefrom") {
        Some(FileRole { kind: FileRoleKind::Source(SourceRole::SubImport), argument: 1, directory: Some(0), list: false })
    } else if str_eq(name, "subfile") {
        Some(FileRole { kind: FileRoleKind::Source(SourceRole::SubFile), argument: 0, directory: None, list: false })
    } else if str_eq(name, "subfileinclude") {
        Some(FileRole { kind: FileRoleKind::Source(SourceRole::SubFileInclude), argument: 0, directory: None, list: false })
    } else if str_eq(name, "loadglsentries") {
        Some(FileRole { kind: FileRoleKind::Source(SourceRole::Glossary), argument: 0, directory: None, list: false })
    } else if str_eq(name, "bibliography") {
        Some(FileRole { kind: FileRoleKind::Bibliography, argument: 0, directory: None, list: true })
    } else if str_eq(name, "addbibresource") {
        Some(FileRole { kind: FileRoleKind::Bibliography, argument: 0, directory: None, list: false })
    } else if str_eq(name, "usepackage")
        || str_eq(name, "RequirePackage")
        || str_eq(name, "RequirePackageWithOptions") {
        Some(FileRole { kind: FileRoleKind::Package, argument: 0, directory: None, list: true })
    } else if str_eq(name, "documentclass")
        || str_eq(name, "LoadClass")
        || str_eq(name, "LoadClassWithOptions") {
        Some(FileRole { kind: FileRoleKind::Class, argument: 0, directory: None, list: false })
    } else if str_eq(name, "includegraphics") {
        Some(FileRole { kind: FileRoleKind::Graphics, argument: 0, directory: None, list: false })
    } else if str_eq(name, "includesvg") {
        Some(FileRole { kind: FileRoleKind::Svg, argument: 0, directory: None, list: false })
    } else if str_eq(name, "includeinkscape") {
        Some(FileRole { kind: FileRoleKind::Inkscape, argument: 0, directory: None, list: false })
    } else if str_eq(name, "verbatiminput")
        || str_eq(name, "VerbatimInput")
        || str_eq(name, "lstinputlisting") {
        Some(FileRole { kind: FileRoleKind::Raw, argument: 0, directory: None, list: false })
    } else if str_eq(name, "inputminted") {
        Some(FileRole { kind: FileRoleKind::Raw, argument: 1, directory: None, list: false })
    } else {
        None
    }
}

/// Which files a document reads its parts from.
pub enum IncludeOnly {
    /// Every file takes part.
    Unrestricted,
    /// The files of these names take part.
    Literal(Vec<SmolStr>),
    /// The names are not known from the text.
    Dynamic,
}

/// A file name without white space around it and without the suffix of a source file.
pub open spec fn plain_name(name: Seq<char>) -> Seq<char> {
    let bare = trimmed(name);
    if has_tail(bare, ".tex"@) {
        bare.take(bare.len() - 4)
    } else {
        bare
    }
}

/// The names that a list of small strings holds.
pub open spec fn names_of(list: Seq<SmolStr>) -> Seq<Seq<char>> {
    Seq::new(list.len(), |i: int| small(list[i]))
}

fn normalize(name: &str) -> (r: String)
    ensures
        r@ == plain_name(name@),
{
    let bare = trim(name);
    proof {
        reveal_strlit(".tex");
    }
    if ends_with(bare, ".tex") {
        let n: usize = bare.unicode_len();
        assert(bare@.take(n - 4) =~= bare@.subrange(0, n - 4));
        bare.substring_char(0, n - 4).to_owned()
    } else {
        bare.to_owned()
    }
}

/// Whether a list holds a file's name.
pub open spec fn lists(names: Seq<SmolStr>, name: Seq<char>) -> bool {
    exists|i: int| 0 <= i < names.len() && plain_name(#[trigger] small(names[i])) == plain_name(name)
}

impl IncludeOnly {
    /// Whether a file takes part: always where nothing is restricted, where its name is in the
    /// list otherwise, and unknown where the list is.
    pub open spec fn takes(&self, name: Seq<char>) -> Option<bool> {
        match *self {
            IncludeOnly::Unrestricted => Some(true),
            IncludeOnly::Literal(names) => Some(lists(names@, name)),
            IncludeOnly::Dynamic => None,
        }
    }

    /// Whether a file takes part.
    pub fn participates(&self, name: &str) -> (r: Option<bool>)
        ensures
            r == self.takes(name@),
    {
        match self {
            IncludeOnly::Unrestricted => Some(true),
            IncludeOnly::Dynamic => None,
            IncludeOnly::Literal(names) => {
                let wanted = normalize(name);
                let mut i: usize = 0;
                while i < names.len()
                    invariant
                        i <= names.len(),
                        *self == IncludeOnly::Literal(*names),
                        wanted@ == plain_name(name@),
                        forall|k: int| 0 <= k < i ==> plain_name(#[trigger] small(names@[k])) != plain_name(name@),
                    decreases names.len() - i,
                {
                    let candidate = normalize(small_str(&names[i]));
                    if candidate == wanted {
                        assert(plain_name(small(names@[i as int])) == plain_name(name@));
                        assert(lists(names@, name@));
                        return Some(true);
                    }
                    i = i + 1;
                }
                Some(false)
            },
        }
    }
}

/// What a list says in words: the pieces between commas, without white space around them and
/// without the empty ones.
pub open spec fn listed(pieces: Seq<Seq<char>>) -> Seq<Seq<char>>
    decreases pieces.len(),
{
    if pieces.len() == 0 {
        Seq::empty()
    } else {
        let head = listed(pieces.drop_last());
        let piece = trimmed(pieces.last());
        if piece.len() == 0 {
            head
        } else {
            head.push(piece)
        }
    }
}

/// The names of a comma-separated list.
fn split_names(text: &str) -> (r: Vec<SmolStr>)
    ensures
        names_of(r@) == listed(split(text@, ',')),
{
    let chars = chars_of(text);
    let n: usize = chars.len();
    let mut out: Vec<SmolStr> = Vec::new();
    let mut start: usize = 0;
    let mut i: usize = 0;
    let ghost mut done: Seq<Seq<char>> = Seq::empty();
    proof {
        assert(text@.take(0) =~= Seq::empty());
        assert(done.push(text@.subrange(0, 0)) =~= seq![Seq::<char>::empty()]);
        assert(names_of(out@) =~= Seq::empty());
    }
    while i < n
        invariant
            chars@ == text@,
            n == text@.len(),
            start <= i <= n,
            split(text@.take(i as int), ',') == done.push(text@.subrange(start as int, i as int)),
            names_of(out@) == listed(done),
        decreases n - i,
    {
        proof {
            let parts = done.push(text@.subrange(start as int, i as int));
            assert(text@.take(i as int + 1).drop_last() =~= text@.take(i as int));
            assert(text@.subrange(start as int, i as int + 1) =~= text@.subrange(start as int, i as int).push(
                text@[i as int],
            ));
            assert(parts.update(parts.len() - 1, parts.last().push(text@[i as int])) =~= done.push(
                text@.subrange(start as int, i as int + 1),
            ));
        }
        if chars[i] == ',' {
            let piece = trim(text.substring_char(start, i));
            let ghost before = out@;
            if !piece.is_empty() {
                out.push(small_string(piece));
            }
            proof {
                let last = text@.subrange(start as int, i as int);
                assert(done.push(last).drop_last() =~= done);
                assert(names_of(out@) =~= listed(done.push(last)));
                done = done.push(last);
                assert(text@.subrange(i as int + 1, i as int + 1) =~= Seq::<char>::empty());
            }
            start = i + 1;
        }
        i = i + 1;
    }
    let piece = trim(text.substring_char(start, n));
    if !piece.is_empty() {
        out.push(small_string(piece));
    }
    proof {
        let last = text@.subrange(start as int, n as int);
        assert(text@.take(n as int) =~= text@);
        assert(done.push(last).drop_last() =~= done);
        assert(names_of(out@) =~= listed(done.push(last)));
    }
    out
}

/// Whether element `i` is a command that restricts the files: one of that name which no other
/// command holds.
pub open spec fn restricts(t: &Tree, i: int) -> bool {
    t.node_is(i, SyntaxKind::Command) && t.named(i, "includeonly"@) && !t.inside(i, SyntaxKind::Command)
}

/// What the restricting command `i` says: the names of its first group, where they are literal.
pub open spec fn restriction(t: &Tree, i: int, filter: IncludeOnly) -> bool {
    match t.group_inner(i, 0) {
        Some(text) => filter matches IncludeOnly::Literal(names) && names_of(names@) == listed(split(text, ',')),
        None => filter is Dynamic,
    }
}

/// Which files the document reads its parts from: the last restricting command decides.
#[verifier::rlimit(40)]
pub fn include_only(t: &Tree) -> (filter: IncludeOnly)
    requires
        t.wf(),
    ensures
        filter is Unrestricted <==> forall|i: int| 0 <= i < t.n() ==> !restricts(t, i),
        forall|i: int|
            0 <= i < t.n() && restricts(t, i) && (forall|j: int| i < j < t.n() ==> !restricts(t, j)) ==> restriction(
                t,
                i,
                filter,
            ),
{
    let mut filter = IncludeOnly::Unrestricted;
    let mut i: usize = 0;
    while i < t.len()
        invariant
            t.wf(),
            i <= t.n(),
            filter is Unrestricted <==> forall|k: int| 0 <= k < i ==> !restricts(t, k),
            forall|k: int|
                0 <= k < i && restricts(t, k) && (forall|j: int| k < j < i ==> !restricts(t, j)) ==> restriction(
                    t,
                    k,
                    filter,
                ),
        decreases t.n() - i,
    {
        if t.is_node(i, SyntaxKind::Command) && t.is_named(i, "includeonly") && !t.is_inside(i, SyntaxKind::Command) {
            assert(restricts(t, i as int));
            filter = match t.nth_group_inner(i, 0) {
                Some(text) => IncludeOnly::Literal(split_names(text.as_str())),
                None => IncludeOnly::Dynamic,
            };
            assert(restriction(t, i as int, filter));
        }
        i = i + 1;
    }
    filter
}

// ---- laws ----------------------------------------------------------------------------------

/// A citation key stands in an argument of a citation command only, and a reference in one of a
/// reference command.
pub proof fn roles_follow_the_command_tables(name: Seq<char>, index: int)
    requires
        index >= 0,
    ensures
        key_role(name, index) matches Some(ArgumentRole::Citation(kind)) ==> cite_command_of(name) == Some(kind),
        key_role(name, index) matches Some(ArgumentRole::Reference(kind)) ==> ref_command_of(name) == Some(kind),
        key_role(name, index) matches Some(ArgumentRole::GlossaryDefinition(kind)) ==> index == 0
            && glossary_definer_of(name) == Some(kind),
        key_role(name, index) matches Some(ArgumentRole::GlossaryUse) ==> index == 0 && glossary_ref_name(name),
        key_role(name, index) matches Some(ArgumentRole::ColorDefinition(kind)) ==> index == 0 && color_definer_of(name)
            == Some(kind),
{
}

/// A multicite command holds keys in every braced argument, and a volume multicite in every
/// second one.
pub proof fn multicites_repeat_their_arguments(name: Seq<char>, index: int)
    requires
        index >= 0,
        name == "Cites"@ || has_tail(name, "cites"@),
    ensures
        holds_keys(name, index) <==> (volume_cite_name(name) ==> index % 2 == 1),
{
}

/// What is excluded is still known by its name: a literal list says of every file whether it
/// takes part, and only a list that is not known leaves it open.
pub proof fn only_an_unknown_list_leaves_open_what_takes_part(filter: IncludeOnly, name: Seq<char>)
    ensures
        filter.takes(name) is None <==> filter is Dynamic,
{
}

} // verus!

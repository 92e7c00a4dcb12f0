//! Which arguments of which commands hold what, told by the names of the commands.

use smol_str::SmolStr;
use vstd::prelude::*;

use crate::roles::{
    cite_command_of, file_role_of, glossary_ref_name, key_role, listed, plain_name, ref_command_of, ArgumentRole,
    CiteCommand, ColorDefKind, FileRole, FileRoleKind, GlossaryDefKind, IncludeOnly, RefCommand, SourceRole,
};
use crate::text::{has_tail, small, trimmed};

verus! {

/// The commands whose first argument is a list of citation keys.
pub open spec fn plain_citation(name: Seq<char>) -> bool {
    name == "cite"@
        || name == "Cite"@
        || name == "citep"@
        || name == "Citep"@
        || name == "citet"@
        || name == "Citet"@
        || name == "citealt"@
        || name == "Citealt"@
        || name == "citealp"@
        || name == "Citealp"@
        || name == "citenum"@
        || name == "citeauthor"@
        || name == "Citeauthor"@
        || name == "citefullauthor"@
        || name == "Citefullauthor"@
        || name == "citeyear"@
        || name == "citeyearpar"@
        || name == "citetalias"@
        || name == "citepalias"@
        || name == "parencite"@
        || name == "Parencite"@
        || name == "footcite"@
        || name == "Footcite"@
        || name == "footcitetext"@
        || name == "Footcitetext"@
        || name == "textcite"@
        || name == "Textcite"@
        || name == "smartcite"@
        || name == "Smartcite"@
        || name == "autocite"@
        || name == "Autocite"@
        || name == "supercite"@
        || name == "fullcite"@
        || name == "footfullcite"@
        || name == "citetitle"@
        || name == "Citetitle"@
        || name == "citedate"@
        || name == "citeurl"@
        || name == "notecite"@
        || name == "Notecite"@
        || name == "pnotecite"@
        || name == "Pnotecite"@
        || name == "fnotecite"@
        || name == "Fnotecite"@
        || name == "citename"@
        || name == "citelist"@
        || name == "citefield"@
}

/// The commands whose every argument is a list of citation keys.
pub open spec fn multiple_citation(name: Seq<char>) -> bool {
    name == "cites"@
        || name == "Cites"@
        || name == "parencites"@
        || name == "Parencites"@
        || name == "textcites"@
        || name == "Textcites"@
        || name == "autocites"@
        || name == "Autocites"@
        || name == "footcites"@
        || name == "Footcites"@
        || name == "smartcites"@
        || name == "Smartcites"@
        || name == "supercites"@
}

/// The commands with a list of citation keys behind a volume.
pub open spec fn volume_citation(name: Seq<char>) -> bool {
    name == "volcite"@
        || name == "Volcite"@
        || name == "pvolcite"@
        || name == "Pvolcite"@
        || name == "fvolcite"@
        || name == "Fvolcite"@
        || name == "tvolcite"@
        || name == "Tvolcite"@
        || name == "avolcite"@
        || name == "Avolcite"@
        || name == "svolcite"@
        || name == "Svolcite"@
}

/// The commands whose arguments are volumes and lists of citation keys in turn.
pub open spec fn multiple_volume_citation(name: Seq<char>) -> bool {
    name == "volcites"@
        || name == "Volcites"@
        || name == "pvolcites"@
        || name == "Pvolcites"@
        || name == "fvolcites"@
        || name == "Fvolcites"@
        || name == "tvolcites"@
        || name == "Tvolcites"@
        || name == "avolcites"@
        || name == "Avolcites"@
        || name == "svolcites"@
        || name == "Svolcites"@
}

/// The commands that refer to a label without saying how.
pub open spec fn plain_reference(name: Seq<char>) -> bool {
    name == "ref"@
        || name == "zref"@
        || name == "zpageref"@
        || name == "zcref"@
        || name == "zCref"@
        || name == "labelcref"@
        || name == "labelcpageref"@
        || name == "namecref"@
        || name == "nameCref"@
        || name == "lcnamecref"@
}

/// The commands that refer to everything between two labels.
pub open spec fn range_reference(name: Seq<char>) -> bool {
    name == "crefrange"@
        || name == "Crefrange"@
        || name == "cpagerefrange"@
        || name == "Cpagerefrange"@
}

/// The commands that define a glossary entry.
pub open spec fn entry_definer(name: Seq<char>) -> bool {
    name == "newglossaryentry"@
        || name == "longnewglossaryentry"@
        || name == "provideglossaryentry"@
        || name == "longprovideglossaryentry"@
}

/// The commands that define an acronym.
pub open spec fn acronym_definer(name: Seq<char>) -> bool {
    name == "newacronym"@
        || name == "DeclareAcronym"@
        || name == "newacro"@
        || name == "acrodef"@
}

/// The commands that use a glossary entry.
pub open spec fn entry_use(name: Seq<char>) -> bool {
    name == "gls"@
        || name == "Gls"@
        || name == "GLS"@
        || name == "glspl"@
        || name == "Glspl"@
        || name == "GLSpl"@
        || name == "glstext"@
        || name == "Glstext"@
        || name == "glsfirst"@
        || name == "Glsfirst"@
        || name == "glsplural"@
        || name == "Glsplural"@
        || name == "glsfirstplural"@
        || name == "Glsfirstplural"@
        || name == "glsdesc"@
        || name == "Glsdesc"@
        || name == "glsname"@
        || name == "Glsname"@
        || name == "glssymbol"@
        || name == "Glssymbol"@
        || name == "glslink"@
        || name == "glsdisp"@
        || name == "glsadd"@
        || name == "glsxtrshort"@
        || name == "Glsxtrshort"@
        || name == "glsxtrlong"@
        || name == "Glsxtrlong"@
        || name == "glsxtrfull"@
        || name == "Glsxtrfull"@
}

/// The commands on `ac` that use an acronym.
pub open spec fn short_acronym_use(name: Seq<char>) -> bool {
    name == "ac"@
        || name == "Ac"@
        || name == "AC"@
        || name == "acs"@
        || name == "acl"@
        || name == "acf"@
        || name == "acp"@
        || name == "acsp"@
        || name == "aclp"@
        || name == "acfp"@
        || name == "iac"@
        || name == "Iac"@
}

/// The commands on `acr` that use an acronym.
pub open spec fn acronym_use(name: Seq<char>) -> bool {
    name == "acrshort"@
        || name == "acrshortpl"@
        || name == "acrlong"@
        || name == "acrlongpl"@
        || name == "acrfull"@
        || name == "acrfullpl"@
        || name == "Acrshort"@
        || name == "Acrshortpl"@
        || name == "Acrlong"@
        || name == "Acrlongpl"@
        || name == "Acrfull"@
        || name == "Acrfullpl"@
        || name == "ACRshort"@
        || name == "ACRshortpl"@
        || name == "ACRlong"@
        || name == "ACRlongpl"@
        || name == "ACRfull"@
        || name == "ACRfullpl"@
}

/// How the commands of labels and bibliography items are spelled.
proof fn lemma_spelled_labels()
    ensures
        "bibitem"@.len() == 7 && "bibitem"@[0] == 'b' && "bibitem"@[1] == 'i' && "bibitem"@[6] == 'm',
        "label"@.len() == 5 && "label"@[0] == 'l' && "label"@[1] == 'a' && "label"@[4] == 'l',
        "zlabel"@.len() == 6 && "zlabel"@[0] == 'z',
{
    reveal_strlit("bibitem");
    reveal_strlit("label");
    reveal_strlit("zlabel");
}

/// How the reference commands are spelled.
proof fn lemma_spelled_references()
    ensures
        "ref"@.len() == 3 && "ref"@[0] == 'r' && "ref"@[2] == 'f',
        "zref"@.len() == 4 && "zref"@[0] == 'z' && "zref"@[2] == 'e',
        "zpageref"@.len() == 8 && "zpageref"@[0] == 'z' && "zpageref"@[1] == 'p' && "zpageref"@[4] == 'e',
        "zcref"@.len() == 5 && "zcref"@[0] == 'z' && "zcref"@[1] == 'c' && "zcref"@[4] == 'f',
        "zCref"@.len() == 5 && "zCref"@[0] == 'z' && "zCref"@[1] == 'C' && "zCref"@[4] == 'f',
        "labelcref"@.len() == 9 && "labelcref"@[0] == 'l' && "labelcref"@[1] == 'a' && "labelcref"@[4] == 'l',
        "labelcpageref"@.len() == 13 && "labelcpageref"@[0] == 'l',
        "namecref"@.len() == 8 && "namecref"@[0] == 'n' && "namecref"@[1] == 'a' && "namecref"@[4] == 'c',
        "nameCref"@.len() == 8 && "nameCref"@[0] == 'n' && "nameCref"@[1] == 'a' && "nameCref"@[4] == 'C',
        "lcnamecref"@.len() == 10 && "lcnamecref"@[0] == 'l' && "lcnamecref"@[1] == 'c' && "lcnamecref"@[4] == 'm' && "lcnamecref"@[6] == 'c',
        "pageref"@.len() == 7 && "pageref"@[0] == 'p' && "pageref"@[1] == 'a' && "pageref"@[6] == 'f',
        "eqref"@.len() == 5 && "eqref"@[0] == 'e' && "eqref"@[1] == 'q' && "eqref"@[4] == 'f',
        "autoref"@.len() == 7 && "autoref"@[0] == 'a' && "autoref"@[1] == 'u' && "autoref"@[6] == 'f',
        "nameref"@.len() == 7 && "nameref"@[0] == 'n' && "nameref"@[1] == 'a' && "nameref"@[6] == 'f',
        "cref"@.len() == 4 && "cref"@[0] == 'c' && "cref"@[2] == 'e',
        "Cref"@.len() == 4 && "Cref"@[0] == 'C' && "Cref"@[2] == 'e',
        "vref"@.len() == 4 && "vref"@[0] == 'v' && "vref"@[2] == 'e',
        "Vref"@.len() == 4 && "Vref"@[0] == 'V' && "Vref"@[2] == 'e',
        "cpageref"@.len() == 8 && "cpageref"@[0] == 'c' && "cpageref"@[1] == 'p' && "cpageref"@[4] == 'e',
        "Cpageref"@.len() == 8 && "Cpageref"@[0] == 'C' && "Cpageref"@[1] == 'p' && "Cpageref"@[4] == 'e',
        "crefrange"@.len() == 9 && "crefrange"@[0] == 'c' && "crefrange"@[1] == 'r' && "crefrange"@[4] == 'r',
        "Crefrange"@.len() == 9 && "Crefrange"@[0] == 'C' && "Crefrange"@[1] == 'r' && "Crefrange"@[4] == 'r',
        "cpagerefrange"@.len() == 13 && "cpagerefrange"@[0] == 'c',
        "Cpagerefrange"@.len() == 13 && "Cpagerefrange"@[0] == 'C',
{
    reveal_strlit("ref");
    reveal_strlit("zref");
    reveal_strlit("zpageref");
    reveal_strlit("zcref");
    reveal_strlit("zCref");
    reveal_strlit("labelcref");
    reveal_strlit("labelcpageref");
    reveal_strlit("namecref");
    reveal_strlit("nameCref");
    reveal_strlit("lcnamecref");
    reveal_strlit("pageref");
    reveal_strlit("eqref");
    reveal_strlit("autoref");
    reveal_strlit("nameref");
    reveal_strlit("cref");
    reveal_strlit("Cref");
    reveal_strlit("vref");
    reveal_strlit("Vref");
    reveal_strlit("cpageref");
    reveal_strlit("Cpageref");
    reveal_strlit("crefrange");
    reveal_strlit("Crefrange");
    reveal_strlit("cpagerefrange");
    reveal_strlit("Cpagerefrange");
}

/// How the citation commands are spelled.
proof fn lemma_spelled_citations()
    ensures
        "nocite"@.len() == 6 && "nocite"@[0] == 'n',
        "cite"@.len() == 4 && "cite"@[0] == 'c' && "cite"@[2] == 't',
        "Cite"@.len() == 4 && "Cite"@[0] == 'C' && "Cite"@[2] == 't',
        "citep"@.len() == 5 && "citep"@[0] == 'c' && "citep"@[1] == 'i' && "citep"@[4] == 'p',
        "Citep"@.len() == 5 && "Citep"@[0] == 'C' && "Citep"@[1] == 'i' && "Citep"@[4] == 'p',
        "citet"@.len() == 5 && "citet"@[0] == 'c' && "citet"@[1] == 'i' && "citet"@[4] == 't',
        "Citet"@.len() == 5 && "Citet"@[0] == 'C' && "Citet"@[1] == 'i' && "Citet"@[4] == 't',
        "citealt"@.len() == 7 && "citealt"@[0] == 'c' && "citealt"@[1] == 'i' && "citealt"@[6] == 't',
        "Citealt"@.len() == 7 && "Citealt"@[0] == 'C' && "Citealt"@[1] == 'i' && "Citealt"@[6] == 't',
        "citealp"@.len() == 7 && "citealp"@[0] == 'c' && "citealp"@[1] == 'i' && "citealp"@[6] == 'p',
        "Citealp"@.len() == 7 && "Citealp"@[0] == 'C' && "Citealp"@[1] == 'i' && "Citealp"@[6] == 'p',
        "citenum"@.len() == 7 && "citenum"@[0] == 'c' && "citenum"@[1] == 'i' && "citenum"@[6] == 'm',
        "citeauthor"@.len() == 10 && "citeauthor"@[0] == 'c' && "citeauthor"@[1] == 'i' && "citeauthor"@[4] == 'a' && "citeauthor"@[6] == 't',
        "Citeauthor"@.len() == 10 && "Citeauthor"@[0] == 'C' && "Citeauthor"@[1] == 'i' && "Citeauthor"@[4] == 'a' && "Citeauthor"@[6] == 't',
        "citefullauthor"@.len() == 14 && "citefullauthor"@[0] == 'c',
        "Citefullauthor"@.len() == 14 && "Citefullauthor"@[0] == 'C',
        "citeyear"@.len() == 8 && "citeyear"@[0] == 'c' && "citeyear"@[1] == 'i' && "citeyear"@[4] == 'y',
        "citeyearpar"@.len() == 11 && "citeyearpar"@[0] == 'c',
        "citetalias"@.len() == 10 && "citetalias"@[0] == 'c' && "citetalias"@[1] == 'i' && "citetalias"@[4] == 't' && "citetalias"@[6] == 'l',
        "citepalias"@.len() == 10 && "citepalias"@[0] == 'c' && "citepalias"@[1] == 'i' && "citepalias"@[4] == 'p' && "citepalias"@[6] == 'l',
        "parencite"@.len() == 9 && "parencite"@[0] == 'p' && "parencite"@[1] == 'a' && "parencite"@[4] == 'n',
        "Parencite"@.len() == 9 && "Parencite"@[0] == 'P' && "Parencite"@[1] == 'a' && "Parencite"@[4] == 'n',
        "footcite"@.len() == 8 && "footcite"@[0] == 'f' && "footcite"@[1] == 'o' && "footcite"@[4] == 'c',
        "Footcite"@.len() == 8 && "Footcite"@[0] == 'F' && "Footcite"@[1] == 'o' && "Footcite"@[4] == 'c',
        "footcitetext"@.len() == 12 && "footcitetext"@[0] == 'f' && "footcitetext"@[4] == 'c',
        "Footcitetext"@.len() == 12 && "Footcitetext"@[0] == 'F' && "Footcitetext"@[4] == 'c',
        "textcite"@.len() == 8 && "textcite"@[0] == 't' && "textcite"@[1] == 'e' && "textcite"@[4] == 'c',
        "Textcite"@.len() == 8 && "Textcite"@[0] == 'T' && "Textcite"@[1] == 'e' && "Textcite"@[4] == 'c',
        "smartcite"@.len() == 9 && "smartcite"@[0] == 's' && "smartcite"@[1] == 'm' && "smartcite"@[4] == 't',
        "Smartcite"@.len() == 9 && "Smartcite"@[0] == 'S' && "Smartcite"@[1] == 'm' && "Smartcite"@[4] == 't',
        "autocite"@.len() == 8 && "autocite"@[0] == 'a' && "autocite"@[1] == 'u' && "autocite"@[4] == 'c',
        "Autocite"@.len() == 8 && "Autocite"@[0] == 'A' && "Autocite"@[1] == 'u' && "Autocite"@[4] == 'c',
        "supercite"@.len() == 9 && "supercite"@[0] == 's' && "supercite"@[1] == 'u' && "supercite"@[4] == 'r',
        "fullcite"@.len() == 8 && "fullcite"@[0] == 'f' && "fullcite"@[1] == 'u' && "fullcite"@[4] == 'c',
        "footfullcite"@.len() == 12 && "footfullcite"@[0] == 'f' && "footfullcite"@[4] == 'f',
        "citetitle"@.len() == 9 && "citetitle"@[0] == 'c' && "citetitle"@[1] == 'i' && "citetitle"@[4] == 't',
        "Citetitle"@.len() == 9 && "Citetitle"@[0] == 'C' && "Citetitle"@[1] == 'i' && "Citetitle"@[4] == 't',
        "citedate"@.len() == 8 && "citedate"@[0] == 'c' && "citedate"@[1] == 'i' && "citedate"@[4] == 'd',
        "citeurl"@.len() == 7 && "citeurl"@[0] == 'c' && "citeurl"@[1] == 'i' && "citeurl"@[6] == 'l',
        "notecite"@.len() == 8 && "notecite"@[0] == 'n' && "notecite"@[1] == 'o' && "notecite"@[4] == 'c',
        "Notecite"@.len() == 8 && "Notecite"@[0] == 'N' && "Notecite"@[1] == 'o' && "Notecite"@[4] == 'c',
        "pnotecite"@.len() == 9 && "pnotecite"@[0] == 'p' && "pnotecite"@[1] == 'n' && "pnotecite"@[4] == 'e',
        "Pnotecite"@.len() == 9 && "Pnotecite"@[0] == 'P' && "Pnotecite"@[1] == 'n' && "Pnotecite"@[4] == 'e',
        "fnotecite"@.len() == 9 && "fnotecite"@[0] == 'f' && "fnotecite"@[1] == 'n' && "fnotecite"@[4] == 'e',
        "Fnotecite"@.len() == 9 && "Fnotecite"@[0] == 'F' && "Fnotecite"@[1] == 'n' && "Fnotecite"@[4] == 'e',
        "citename"@.len() == 8 && "citename"@[0] == 'c' && "citename"@[1] == 'i' && "citename"@[4] == 'n',
        "citelist"@.len() == 8 && "citelist"@[0] == 'c' && "citelist"@[1] == 'i' && "citelist"@[4] == 'l',
        "citefield"@.len() == 9 && "citefield"@[0] == 'c' && "citefield"@[1] == 'i' && "citefield"@[4] == 'f',
        "cites"@.len() == 5 && "cites"@[0] == 'c' && "cites"@[1] == 'i' && "cites"@[4] == 's',
        "Cites"@.len() == 5 && "Cites"@[0] == 'C' && "Cites"@[1] == 'i' && "Cites"@[4] == 's',
        "parencites"@.len() == 10 && "parencites"@[0] == 'p' && "parencites"@[1] == 'a' && "parencites"@[4] == 'n' && "parencites"@[6] == 'i',
        "Parencites"@.len() == 10 && "Parencites"@[0] == 'P' && "Parencites"@[1] == 'a' && "Parencites"@[4] == 'n' && "Parencites"@[6] == 'i',
        "textcites"@.len() == 9 && "textcites"@[0] == 't' && "textcites"@[1] == 'e' && "textcites"@[4] == 'c',
        "Textcites"@.len() == 9 && "Textcites"@[0] == 'T' && "Textcites"@[1] == 'e' && "Textcites"@[4] == 'c',
        "autocites"@.len() == 9 && "autocites"@[0] == 'a' && "autocites"@[1] == 'u' && "autocites"@[4] == 'c',
        "Autocites"@.len() == 9 && "Autocites"@[0] == 'A' && "Autocites"@[1] == 'u' && "Autocites"@[4] == 'c',
        "footcites"@.len() == 9 && "footcites"@[0] == 'f' && "footcites"@[1] == 'o' && "footcites"@[4] == 'c',
        "Footcites"@.len() == 9 && "Footcites"@[0] == 'F' && "Footcites"@[1] == 'o' && "Footcites"@[4] == 'c',
        "smartcites"@.len() == 10 && "smartcites"@[0] == 's' && "smartcites"@[1] == 'm' && "smartcites"@[4] == 't' && "smartcites"@[6] == 'i',
        "Smartcites"@.len() == 10 && "Smartcites"@[0] == 'S' && "Smartcites"@[1] == 'm' && "Smartcites"@[4] == 't' && "Smartcites"@[6] == 'i',
        "supercites"@.len() == 10 && "supercites"@[0] == 's' && "supercites"@[1] == 'u' && "supercites"@[4] == 'r' && "supercites"@[6] == 'i',
        "volcite"@.len() == 7 && "volcite"@[0] == 'v' && "volcite"@[1] == 'o' && "volcite"@[6] == 'e',
        "Volcite"@.len() == 7 && "Volcite"@[0] == 'V' && "Volcite"@[1] == 'o' && "Volcite"@[6] == 'e',
        "pvolcite"@.len() == 8 && "pvolcite"@[0] == 'p' && "pvolcite"@[1] == 'v' && "pvolcite"@[4] == 'c',
        "Pvolcite"@.len() == 8 && "Pvolcite"@[0] == 'P' && "Pvolcite"@[1] == 'v' && "Pvolcite"@[4] == 'c',
        "fvolcite"@.len() == 8 && "fvolcite"@[0] == 'f' && "fvolcite"@[1] == 'v' && "fvolcite"@[4] == 'c',
        "Fvolcite"@.len() == 8 && "Fvolcite"@[0] == 'F' && "Fvolcite"@[1] == 'v' && "Fvolcite"@[4] == 'c',
        "tvolcite"@.len() == 8 && "tvolcite"@[0] == 't' && "tvolcite"@[1] == 'v' && "tvolcite"@[4] == 'c',
        "Tvolcite"@.len() == 8 && "Tvolcite"@[0] == 'T' && "Tvolcite"@[1] == 'v' && "Tvolcite"@[4] == 'c',
        "avolcite"@.len() == 8 && "avolcite"@[0] == 'a' && "avolcite"@[1] == 'v' && "avolcite"@[4] == 'c',
        "Avolcite"@.len() == 8 && "Avolcite"@[0] == 'A' && "Avolcite"@[1] == 'v' && "Avolcite"@[4] == 'c',
        "svolcite"@.len() == 8 && "svolcite"@[0] == 's' && "svolcite"@[1] == 'v' && "svolcite"@[4] == 'c',
        "Svolcite"@.len() == 8 && "Svolcite"@[0] == 'S' && "Svolcite"@[1] == 'v' && "Svolcite"@[4] == 'c',
        "volcites"@.len() == 8 && "volcites"@[0] == 'v' && "volcites"@[1] == 'o' && "volcites"@[4] == 'i',
        "Volcites"@.len() == 8 && "Volcites"@[0] == 'V' && "Volcites"@[1] == 'o' && "Volcites"@[4] == 'i',
        "pvolcites"@.len() == 9 && "pvolcites"@[0] == 'p' && "pvolcites"@[1] == 'v' && "pvolcites"@[4] == 'c',
        "Pvolcites"@.len() == 9 && "Pvolcites"@[0] == 'P' && "Pvolcites"@[1] == 'v' && "Pvolcites"@[4] == 'c',
        "fvolcites"@.len() == 9 && "fvolcites"@[0] == 'f' && "fvolcites"@[1] == 'v' && "fvolcites"@[4] == 'c',
        "Fvolcites"@.len() == 9 && "Fvolcites"@[0] == 'F' && "Fvolcites"@[1] == 'v' && "Fvolcites"@[4] == 'c',
        "tvolcites"@.len() == 9 && "tvolcites"@[0] == 't' && "tvolcites"@[1] == 'v' && "tvolcites"@[4] == 'c',
        "Tvolcites"@.len() == 9 && "Tvolcites"@[0] == 'T' && "Tvolcites"@[1] == 'v' && "Tvolcites"@[4] == 'c',
        "avolcites"@.len() == 9 && "avolcites"@[0] == 'a' && "avolcites"@[1] == 'v' && "avolcites"@[4] == 'c',
        "Avolcites"@.len() == 9 && "Avolcites"@[0] == 'A' && "Avolcites"@[1] == 'v' && "Avolcites"@[4] == 'c',
        "svolcites"@.len() == 9 && "svolcites"@[0] == 's' && "svolcites"@[1] == 'v' && "svolcites"@[4] == 'c',
        "Svolcites"@.len() == 9 && "Svolcites"@[0] == 'S' && "Svolcites"@[1] == 'v' && "Svolcites"@[4] == 'c',
{
    reveal_strlit("nocite");
    reveal_strlit("cite");
    reveal_strlit("Cite");
    reveal_strlit("citep");
    reveal_strlit("Citep");
    reveal_strlit("citet");
    reveal_strlit("Citet");
    reveal_strlit("citealt");
    reveal_strlit("Citealt");
    reveal_strlit("citealp");
    reveal_strlit("Citealp");
    reveal_strlit("citenum");
    reveal_strlit("citeauthor");
    reveal_strlit("Citeauthor");
    reveal_strlit("citefullauthor");
    reveal_strlit("Citefullauthor");
    reveal_strlit("citeyear");
    reveal_strlit("citeyearpar");
    reveal_strlit("citetalias");
    reveal_strlit("citepalias");
    reveal_strlit("parencite");
    reveal_strlit("Parencite");
    reveal_strlit("footcite");
    reveal_strlit("Footcite");
    reveal_strlit("footcitetext");
    reveal_strlit("Footcitetext");
    reveal_strlit("textcite");
    reveal_strlit("Textcite");
    reveal_strlit("smartcite");
    reveal_strlit("Smartcite");
    reveal_strlit("autocite");
    reveal_strlit("Autocite");
    reveal_strlit("supercite");
    reveal_strlit("fullcite");
    reveal_strlit("footfullcite");
    reveal_strlit("citetitle");
    reveal_strlit("Citetitle");
    reveal_strlit("citedate");
    reveal_strlit("citeurl");
    reveal_strlit("notecite");
    reveal_strlit("Notecite");
    reveal_strlit("pnotecite");
    reveal_strlit("Pnotecite");
    reveal_strlit("fnotecite");
    reveal_strlit("Fnotecite");
    reveal_strlit("citename");
    reveal_strlit("citelist");
    reveal_strlit("citefield");
    reveal_strlit("cites");
    reveal_strlit("Cites");
    reveal_strlit("parencites");
    reveal_strlit("Parencites");
    reveal_strlit("textcites");
    reveal_strlit("Textcites");
    reveal_strlit("autocites");
    reveal_strlit("Autocites");
    reveal_strlit("footcites");
    reveal_strlit("Footcites");
    reveal_strlit("smartcites");
    reveal_strlit("Smartcites");
    reveal_strlit("supercites");
    reveal_strlit("volcite");
    reveal_strlit("Volcite");
    reveal_strlit("pvolcite");
    reveal_strlit("Pvolcite");
    reveal_strlit("fvolcite");
    reveal_strlit("Fvolcite");
    reveal_strlit("tvolcite");
    reveal_strlit("Tvolcite");
    reveal_strlit("avolcite");
    reveal_strlit("Avolcite");
    reveal_strlit("svolcite");
    reveal_strlit("Svolcite");
    reveal_strlit("volcites");
    reveal_strlit("Volcites");
    reveal_strlit("pvolcites");
    reveal_strlit("Pvolcites");
    reveal_strlit("fvolcites");
    reveal_strlit("Fvolcites");
    reveal_strlit("tvolcites");
    reveal_strlit("Tvolcites");
    reveal_strlit("avolcites");
    reveal_strlit("Avolcites");
    reveal_strlit("svolcites");
    reveal_strlit("Svolcites");
}

/// How the definition commands are spelled.
proof fn lemma_spelled_definitions()
    ensures
        "newglossaryentry"@.len() == 16,
        "longnewglossaryentry"@.len() == 20 && "longnewglossaryentry"@[0] == 'l',
        "provideglossaryentry"@.len() == 20 && "provideglossaryentry"@[0] == 'p',
        "longprovideglossaryentry"@.len() == 24,
        "newacronym"@.len() == 10 && "newacronym"@[0] == 'n' && "newacronym"@[1] == 'e' && "newacronym"@[4] == 'c' && "newacronym"@[6] == 'o',
        "DeclareAcronym"@.len() == 14 && "DeclareAcronym"@[0] == 'D',
        "newacro"@.len() == 7 && "newacro"@[0] == 'n' && "newacro"@[1] == 'e' && "newacro"@[6] == 'o',
        "acrodef"@.len() == 7 && "acrodef"@[0] == 'a' && "acrodef"@[1] == 'c' && "acrodef"@[6] == 'f',
        "newabbreviation"@.len() == 15,
        "definecolor"@.len() == 11 && "definecolor"@[0] == 'd',
        "providecolor"@.len() == 12 && "providecolor"@[0] == 'p' && "providecolor"@[4] == 'i',
        "colorlet"@.len() == 8 && "colorlet"@[0] == 'c' && "colorlet"@[1] == 'o' && "colorlet"@[4] == 'r',
{
    reveal_strlit("newglossaryentry");
    reveal_strlit("longnewglossaryentry");
    reveal_strlit("provideglossaryentry");
    reveal_strlit("longprovideglossaryentry");
    reveal_strlit("newacronym");
    reveal_strlit("DeclareAcronym");
    reveal_strlit("newacro");
    reveal_strlit("acrodef");
    reveal_strlit("newabbreviation");
    reveal_strlit("definecolor");
    reveal_strlit("providecolor");
    reveal_strlit("colorlet");
}

/// How the commands that use a glossary entry are spelled.
proof fn lemma_spelled_uses()
    ensures
        "gls"@.len() == 3 && "gls"@[0] == 'g' && "gls"@[2] == 's',
        "Gls"@.len() == 3 && "Gls"@[0] == 'G' && "Gls"@[2] == 's',
        "GLS"@.len() == 3 && "GLS"@[0] == 'G' && "GLS"@[2] == 'S',
        "glspl"@.len() == 5 && "glspl"@[0] == 'g' && "glspl"@[1] == 'l' && "glspl"@[4] == 'l',
        "Glspl"@.len() == 5 && "Glspl"@[0] == 'G' && "Glspl"@[1] == 'l' && "Glspl"@[4] == 'l',
        "GLSpl"@.len() == 5 && "GLSpl"@[0] == 'G' && "GLSpl"@[1] == 'L' && "GLSpl"@[4] == 'l',
        "glstext"@.len() == 7 && "glstext"@[0] == 'g' && "glstext"@[1] == 'l' && "glstext"@[6] == 't',
        "Glstext"@.len() == 7 && "Glstext"@[0] == 'G' && "Glstext"@[1] == 'l' && "Glstext"@[6] == 't',
        "glsfirst"@.len() == 8 && "glsfirst"@[0] == 'g' && "glsfirst"@[1] == 'l' && "glsfirst"@[4] == 'i',
        "Glsfirst"@.len() == 8 && "Glsfirst"@[0] == 'G' && "Glsfirst"@[1] == 'l' && "Glsfirst"@[4] == 'i',
        "glsplural"@.len() == 9 && "glsplural"@[0] == 'g' && "glsplural"@[1] == 'l' && "glsplural"@[4] == 'l',
        "Glsplural"@.len() == 9 && "Glsplural"@[0] == 'G' && "Glsplural"@[1] == 'l' && "Glsplural"@[4] == 'l',
        "glsfirstplural"@.len() == 14 && "glsfirstplural"@[0] == 'g',
        "Glsfirstplural"@.len() == 14 && "Glsfirstplural"@[0] == 'G',
        "glsdesc"@.len() == 7 && "glsdesc"@[0] == 'g' && "glsdesc"@[1] == 'l' && "glsdesc"@[6] == 'c',
        "Glsdesc"@.len() == 7 && "Glsdesc"@[0] == 'G' && "Glsdesc"@[1] == 'l' && "Glsdesc"@[6] == 'c',
        "glsname"@.len() == 7 && "glsname"@[0] == 'g' && "glsname"@[1] == 'l' && "glsname"@[6] == 'e',
        "Glsname"@.len() == 7 && "Glsname"@[0] == 'G' && "Glsname"@[1] == 'l' && "Glsname"@[6] == 'e',
        "glssymbol"@.len() == 9 && "glssymbol"@[0] == 'g' && "glssymbol"@[1] == 'l' && "glssymbol"@[4] == 'y',
        "Glssymbol"@.len() == 9 && "Glssymbol"@[0] == 'G' && "Glssymbol"@[1] == 'l' && "Glssymbol"@[4] == 'y',
        "glslink"@.len() == 7 && "glslink"@[0] == 'g' && "glslink"@[1] == 'l' && "glslink"@[6] == 'k',
        "glsdisp"@.len() == 7 && "glsdisp"@[0] == 'g' && "glsdisp"@[1] == 'l' && "glsdisp"@[6] == 'p',
        "glsadd"@.len() == 6 && "glsadd"@[0] == 'g',
        "glsxtrshort"@.len() == 11 && "glsxtrshort"@[0] == 'g',
        "Glsxtrshort"@.len() == 11 && "Glsxtrshort"@[0] == 'G',
        "glsxtrlong"@.len() == 10 && "glsxtrlong"@[0] == 'g' && "glsxtrlong"@[1] == 'l' && "glsxtrlong"@[4] == 't' && "glsxtrlong"@[6] == 'l',
        "Glsxtrlong"@.len() == 10 && "Glsxtrlong"@[0] == 'G' && "Glsxtrlong"@[1] == 'l' && "Glsxtrlong"@[4] == 't' && "Glsxtrlong"@[6] == 'l',
        "glsxtrfull"@.len() == 10 && "glsxtrfull"@[0] == 'g' && "glsxtrfull"@[1] == 'l' && "glsxtrfull"@[4] == 't' && "glsxtrfull"@[6] == 'f',
        "Glsxtrfull"@.len() == 10 && "Glsxtrfull"@[0] == 'G' && "Glsxtrfull"@[1] == 'l' && "Glsxtrfull"@[4] == 't' && "Glsxtrfull"@[6] == 'f',
        "ac"@.len() == 2 && "ac"@[0] == 'a' && "ac"@[1] == 'c',
        "Ac"@.len() == 2 && "Ac"@[0] == 'A' && "Ac"@[1] == 'c',
        "AC"@.len() == 2 && "AC"@[0] == 'A' && "AC"@[1] == 'C',
        "acs"@.len() == 3 && "acs"@[0] == 'a' && "acs"@[2] == 's',
        "acl"@.len() == 3 && "acl"@[0] == 'a' && "acl"@[2] == 'l',
        "acf"@.len() == 3 && "acf"@[0] == 'a' && "acf"@[2] == 'f',
        "acp"@.len() == 3 && "acp"@[0] == 'a' && "acp"@[2] == 'p',
        "acsp"@.len() == 4 && "acsp"@[0] == 'a' && "acsp"@[2] == 's',
        "aclp"@.len() == 4 && "aclp"@[0] == 'a' && "aclp"@[2] == 'l',
        "acfp"@.len() == 4 && "acfp"@[0] == 'a' && "acfp"@[2] == 'f',
        "iac"@.len() == 3 && "iac"@[0] == 'i' && "iac"@[2] == 'c',
        "Iac"@.len() == 3 && "Iac"@[0] == 'I' && "Iac"@[2] == 'c',
        "acrshort"@.len() == 8 && "acrshort"@[0] == 'a' && "acrshort"@[1] == 'c' && "acrshort"@[4] == 'h',
        "acrshortpl"@.len() == 10 && "acrshortpl"@[0] == 'a' && "acrshortpl"@[1] == 'c' && "acrshortpl"@[4] == 'h' && "acrshortpl"@[6] == 'r',
        "acrlong"@.len() == 7 && "acrlong"@[0] == 'a' && "acrlong"@[1] == 'c' && "acrlong"@[6] == 'g',
        "acrlongpl"@.len() == 9 && "acrlongpl"@[0] == 'a' && "acrlongpl"@[1] == 'c' && "acrlongpl"@[4] == 'o',
        "acrfull"@.len() == 7 && "acrfull"@[0] == 'a' && "acrfull"@[1] == 'c' && "acrfull"@[6] == 'l',
        "acrfullpl"@.len() == 9 && "acrfullpl"@[0] == 'a' && "acrfullpl"@[1] == 'c' && "acrfullpl"@[4] == 'u',
        "Acrshort"@.len() == 8 && "Acrshort"@[0] == 'A' && "Acrshort"@[1] == 'c' && "Acrshort"@[4] == 'h',
        "Acrshortpl"@.len() == 10 && "Acrshortpl"@[0] == 'A' && "Acrshortpl"@[1] == 'c' && "Acrshortpl"@[4] == 'h' && "Acrshortpl"@[6] == 'r',
        "Acrlong"@.len() == 7 && "Acrlong"@[0] == 'A' && "Acrlong"@[1] == 'c' && "Acrlong"@[6] == 'g',
        "Acrlongpl"@.len() == 9 && "Acrlongpl"@[0] == 'A' && "Acrlongpl"@[1] == 'c' && "Acrlongpl"@[4] == 'o',
        "Acrfull"@.len() == 7 && "Acrfull"@[0] == 'A' && "Acrfull"@[1] == 'c' && "Acrfull"@[6] == 'l',
        "Acrfullpl"@.len() == 9 && "Acrfullpl"@[0] == 'A' && "Acrfullpl"@[1] == 'c' && "Acrfullpl"@[4] == 'u',
        "ACRshort"@.len() == 8 && "ACRshort"@[0] == 'A' && "ACRshort"@[1] == 'C' && "ACRshort"@[4] == 'h',
        "ACRshortpl"@.len() == 10 && "ACRshortpl"@[0] == 'A' && "ACRshortpl"@[1] == 'C' && "ACRshortpl"@[4] == 'h' && "ACRshortpl"@[6] == 'r',
        "ACRlong"@.len() == 7 && "ACRlong"@[0] == 'A' && "ACRlong"@[1] == 'C' && "ACRlong"@[6] == 'g',
        "ACRlongpl"@.len() == 9 && "ACRlongpl"@[0] == 'A' && "ACRlongpl"@[1] == 'C' && "ACRlongpl"@[4] == 'o',
        "ACRfull"@.len() == 7 && "ACRfull"@[0] == 'A' && "ACRfull"@[1] == 'C' && "ACRfull"@[6] == 'l',
        "ACRfullpl"@.len() == 9 && "ACRfullpl"@[0] == 'A' && "ACRfullpl"@[1] == 'C' && "ACRfullpl"@[4] == 'u',
{
    reveal_strlit("gls");
    reveal_strlit("Gls");
    reveal_strlit("GLS");
    reveal_strlit("glspl");
    reveal_strlit("Glspl");
    reveal_strlit("GLSpl");
    reveal_strlit("glstext");
    reveal_strlit("Glstext");
    reveal_strlit("glsfirst");
    reveal_strlit("Glsfirst");
    reveal_strlit("glsplural");
    reveal_strlit("Glsplural");
    reveal_strlit("glsfirstplural");
    reveal_strlit("Glsfirstplural");
    reveal_strlit("glsdesc");
    reveal_strlit("Glsdesc");
    reveal_strlit("glsname");
    reveal_strlit("Glsname");
    reveal_strlit("glssymbol");
    reveal_strlit("Glssymbol");
    reveal_strlit("glslink");
    reveal_strlit("glsdisp");
    reveal_strlit("glsadd");
    reveal_strlit("glsxtrshort");
    reveal_strlit("Glsxtrshort");
    reveal_strlit("glsxtrlong");
    reveal_strlit("Glsxtrlong");
    reveal_strlit("glsxtrfull");
    reveal_strlit("Glsxtrfull");
    reveal_strlit("ac");
    reveal_strlit("Ac");
    reveal_strlit("AC");
    reveal_strlit("acs");
    reveal_strlit("acl");
    reveal_strlit("acf");
    reveal_strlit("acp");
    reveal_strlit("acsp");
    reveal_strlit("aclp");
    reveal_strlit("acfp");
    reveal_strlit("iac");
    reveal_strlit("Iac");
    reveal_strlit("acrshort");
    reveal_strlit("acrshortpl");
    reveal_strlit("acrlong");
    reveal_strlit("acrlongpl");
    reveal_strlit("acrfull");
    reveal_strlit("acrfullpl");
    reveal_strlit("Acrshort");
    reveal_strlit("Acrshortpl");
    reveal_strlit("Acrlong");
    reveal_strlit("Acrlongpl");
    reveal_strlit("Acrfull");
    reveal_strlit("Acrfullpl");
    reveal_strlit("ACRshort");
    reveal_strlit("ACRshortpl");
    reveal_strlit("ACRlong");
    reveal_strlit("ACRlongpl");
    reveal_strlit("ACRfull");
    reveal_strlit("ACRfullpl");
}

/// How the commands that name files are spelled.
proof fn lemma_spelled_files()
    ensures
        "input"@.len() == 5,
        "include"@.len() == 7 && "include"@[0] == 'i',
        "import"@.len() == 6,
        "inputfrom"@.len() == 9 && "inputfrom"@[0] == 'i',
        "includefrom"@.len() == 11 && "includefrom"@[2] == 'c',
        "subimport"@.len() == 9 && "subimport"@[0] == 's',
        "subinputfrom"@.len() == 12 && "subinputfrom"@[0] == 's',
        "subincludefrom"@.len() == 14 && "subincludefrom"@[3] == 'i',
        "subfile"@.len() == 7 && "subfile"@[0] == 's',
        "subfileinclude"@.len() == 14 && "subfileinclude"@[3] == 'f',
        "loadglsentries"@.len() == 14 && "loadglsentries"@[3] == 'd',
        "bibliography"@.len() == 12 && "bibliography"@[0] == 'b',
        "addbibresource"@.len() == 14 && "addbibresource"@[3] == 'b',
        "usepackage"@.len() == 10 && "usepackage"@[0] == 'u',
        "RequirePackage"@.len() == 14 && "RequirePackage"@[3] == 'u',
        "RequirePackageWithOptions"@.len() == 25,
        "documentclass"@.len() == 13 && "documentclass"@[0] == 'd',
        "LoadClass"@.len() == 9 && "LoadClass"@[0] == 'L',
        "LoadClassWithOptions"@.len() == 20,
        "includegraphics"@.len() == 15 && "includegraphics"@[7] == 'g',
        "includesvg"@.len() == 10 && "includesvg"@[0] == 'i',
        "includeinkscape"@.len() == 15 && "includeinkscape"@[7] == 'i',
        "verbatiminput"@.len() == 13 && "verbatiminput"@[0] == 'v',
        "VerbatimInput"@.len() == 13 && "VerbatimInput"@[0] == 'V',
        "lstinputlisting"@.len() == 15 && "lstinputlisting"@[7] == 't',
        "inputminted"@.len() == 11 && "inputminted"@[2] == 'p',
{
    reveal_strlit("input");
    reveal_strlit("include");
    reveal_strlit("import");
    reveal_strlit("inputfrom");
    reveal_strlit("includefrom");
    reveal_strlit("subimport");
    reveal_strlit("subinputfrom");
    reveal_strlit("subincludefrom");
    reveal_strlit("subfile");
    reveal_strlit("subfileinclude");
    reveal_strlit("loadglsentries");
    reveal_strlit("bibliography");
    reveal_strlit("addbibresource");
    reveal_strlit("usepackage");
    reveal_strlit("RequirePackage");
    reveal_strlit("RequirePackageWithOptions");
    reveal_strlit("documentclass");
    reveal_strlit("LoadClass");
    reveal_strlit("LoadClassWithOptions");
    reveal_strlit("includegraphics");
    reveal_strlit("includesvg");
    reveal_strlit("includeinkscape");
    reveal_strlit("verbatiminput");
    reveal_strlit("VerbatimInput");
    reveal_strlit("lstinputlisting");
    reveal_strlit("inputminted");
}

// ---- laws ----------------------------------------------------------------------------------

/// The first argument of `label` and of `zlabel` defines a label, and no other argument of these
/// or of any other command does.
pub proof fn labels_are_defined_by_two_commands(name: Seq<char>, index: int)
    requires
        index >= 0,
    ensures
        key_role(name, index) == Some(ArgumentRole::Label) <==> index == 0 && (name == "label"@ || name == "zlabel"@),
{
    lemma_spelled_labels();
}

/// The first argument of `bibitem` is a bibliography item, and no other argument is.
pub proof fn bibliography_items_are_made_by_one_command(name: Seq<char>, index: int)
    requires
        index >= 0,
    ensures
        key_role(name, index) == Some(ArgumentRole::BibliographyItem) <==> index == 0 && name == "bibitem"@,
{
}

/// The first argument of a reference command is a label that it refers to, the second one too
/// where the command speaks of a range, and no other argument is.
pub proof fn references_stand_in_the_first_argument(name: Seq<char>, index: int)
    requires
        index >= 0,
    ensures
        key_role(name, index) == Some(ArgumentRole::Reference(RefCommand::Ref)) <==> index == 0 && plain_reference(name),
        key_role(name, index) == Some(ArgumentRole::Reference(RefCommand::PageRef)) <==> index == 0 && name == "pageref"@,
        key_role(name, index) == Some(ArgumentRole::Reference(RefCommand::EqRef)) <==> index == 0 && name == "eqref"@,
        key_role(name, index) == Some(ArgumentRole::Reference(RefCommand::AutoRef)) <==> index == 0 && name == "autoref"@,
        key_role(name, index) == Some(ArgumentRole::Reference(RefCommand::NameRef)) <==> index == 0 && name == "nameref"@,
        key_role(name, index) == Some(ArgumentRole::Reference(RefCommand::Cref)) <==> index == 0 && name == "cref"@,
        key_role(name, index) == Some(ArgumentRole::Reference(RefCommand::CrefUpper)) <==> index == 0 && name == "Cref"@,
        key_role(name, index) == Some(ArgumentRole::Reference(RefCommand::Vref)) <==> index == 0 && name == "vref"@,
        key_role(name, index) == Some(ArgumentRole::Reference(RefCommand::VrefUpper)) <==> index == 0 && name == "Vref"@,
        key_role(name, index) == Some(ArgumentRole::Reference(RefCommand::CpageRef)) <==> (index == 0 && (name
            == "cpageref"@ || name == "Cpageref"@)) || (index < 2 && range_reference(name)),
{
    lemma_spelled_labels();
    lemma_spelled_references();
}

/// A name ends in `cites` when its last letters are these.
proof fn lemma_repeats(name: Seq<char>)
    ensures
        has_tail(name, "cites"@) <==> name.len() >= 5 && name[name.len() - 5] == 'c' && name[name.len() - 4] == 'i'
            && name[name.len() - 3] == 't' && name[name.len() - 2] == 'e' && name[name.len() - 1] == 's',
{
    reveal_strlit("cites");
    if name.len() >= 5 {
        let tail = name.skip(name.len() - 5);
        assert(tail.len() == 5);
        assert(tail[0] == name[name.len() - 5]);
        assert(tail[1] == name[name.len() - 4]);
        assert(tail[2] == name[name.len() - 3]);
        assert(tail[3] == name[name.len() - 2]);
        assert(tail[4] == name[name.len() - 1]);
        if name[name.len() - 5] == 'c' && name[name.len() - 4] == 'i' && name[name.len() - 3] == 't' && name[name.len() - 2]
            == 'e' && name[name.len() - 1] == 's' {
            assert(tail =~= "cites"@);
        }
    }
}

/// Which citation commands repeat their arguments.
proof fn lemma_repeating_citations()
    ensures
        !has_tail("nocite"@, "cites"@),
        !has_tail("cite"@, "cites"@),
        !has_tail("Cite"@, "cites"@),
        !has_tail("citep"@, "cites"@),
        !has_tail("Citep"@, "cites"@),
        !has_tail("citet"@, "cites"@),
        !has_tail("Citet"@, "cites"@),
        !has_tail("citealt"@, "cites"@),
        !has_tail("Citealt"@, "cites"@),
        !has_tail("citealp"@, "cites"@),
        !has_tail("Citealp"@, "cites"@),
        !has_tail("citenum"@, "cites"@),
        !has_tail("citeauthor"@, "cites"@),
        !has_tail("Citeauthor"@, "cites"@),
        !has_tail("citefullauthor"@, "cites"@),
        !has_tail("Citefullauthor"@, "cites"@),
        !has_tail("citeyear"@, "cites"@),
        !has_tail("citeyearpar"@, "cites"@),
        !has_tail("citetalias"@, "cites"@),
        !has_tail("citepalias"@, "cites"@),
        !has_tail("parencite"@, "cites"@),
        !has_tail("Parencite"@, "cites"@),
        !has_tail("footcite"@, "cites"@),
        !has_tail("Footcite"@, "cites"@),
        !has_tail("footcitetext"@, "cites"@),
        !has_tail("Footcitetext"@, "cites"@),
        !has_tail("textcite"@, "cites"@),
        !has_tail("Textcite"@, "cites"@),
        !has_tail("smartcite"@, "cites"@),
        !has_tail("Smartcite"@, "cites"@),
        !has_tail("autocite"@, "cites"@),
        !has_tail("Autocite"@, "cites"@),
        !has_tail("supercite"@, "cites"@),
        !has_tail("fullcite"@, "cites"@),
        !has_tail("footfullcite"@, "cites"@),
        !has_tail("citetitle"@, "cites"@),
        !has_tail("Citetitle"@, "cites"@),
        !has_tail("citedate"@, "cites"@),
        !has_tail("citeurl"@, "cites"@),
        !has_tail("notecite"@, "cites"@),
        !has_tail("Notecite"@, "cites"@),
        !has_tail("pnotecite"@, "cites"@),
        !has_tail("Pnotecite"@, "cites"@),
        !has_tail("fnotecite"@, "cites"@),
        !has_tail("Fnotecite"@, "cites"@),
        !has_tail("citename"@, "cites"@),
        !has_tail("citelist"@, "cites"@),
        !has_tail("citefield"@, "cites"@),
        has_tail("cites"@, "cites"@),
        !has_tail("Cites"@, "cites"@),
        has_tail("parencites"@, "cites"@),
        has_tail("Parencites"@, "cites"@),
        has_tail("textcites"@, "cites"@),
        has_tail("Textcites"@, "cites"@),
        has_tail("autocites"@, "cites"@),
        has_tail("Autocites"@, "cites"@),
        has_tail("footcites"@, "cites"@),
        has_tail("Footcites"@, "cites"@),
        has_tail("smartcites"@, "cites"@),
        has_tail("Smartcites"@, "cites"@),
        has_tail("supercites"@, "cites"@),
        !has_tail("volcite"@, "cites"@),
        !has_tail("Volcite"@, "cites"@),
        !has_tail("pvolcite"@, "cites"@),
        !has_tail("Pvolcite"@, "cites"@),
        !has_tail("fvolcite"@, "cites"@),
        !has_tail("Fvolcite"@, "cites"@),
        !has_tail("tvolcite"@, "cites"@),
        !has_tail("Tvolcite"@, "cites"@),
        !has_tail("avolcite"@, "cites"@),
        !has_tail("Avolcite"@, "cites"@),
        !has_tail("svolcite"@, "cites"@),
        !has_tail("Svolcite"@, "cites"@),
        has_tail("volcites"@, "cites"@),
        has_tail("Volcites"@, "cites"@),
        has_tail("pvolcites"@, "cites"@),
        has_tail("Pvolcites"@, "cites"@),
        has_tail("fvolcites"@, "cites"@),
        has_tail("Fvolcites"@, "cites"@),
        has_tail("tvolcites"@, "cites"@),
        has_tail("Tvolcites"@, "cites"@),
        has_tail("avolcites"@, "cites"@),
        has_tail("Avolcites"@, "cites"@),
        has_tail("svolcites"@, "cites"@),
        has_tail("Svolcites"@, "cites"@),
{
    reveal_strlit("nocite");
    lemma_repeats("nocite"@);
    reveal_strlit("cite");
    lemma_repeats("cite"@);
    reveal_strlit("Cite");
    lemma_repeats("Cite"@);
    reveal_strlit("citep");
    lemma_repeats("citep"@);
    reveal_strlit("Citep");
    lemma_repeats("Citep"@);
    reveal_strlit("citet");
    lemma_repeats("citet"@);
    reveal_strlit("Citet");
    lemma_repeats("Citet"@);
    reveal_strlit("citealt");
    lemma_repeats("citealt"@);
    reveal_strlit("Citealt");
    lemma_repeats("Citealt"@);
    reveal_strlit("citealp");
    lemma_repeats("citealp"@);
    reveal_strlit("Citealp");
    lemma_repeats("Citealp"@);
    reveal_strlit("citenum");
    lemma_repeats("citenum"@);
    reveal_strlit("citeauthor");
    lemma_repeats("citeauthor"@);
    reveal_strlit("Citeauthor");
    lemma_repeats("Citeauthor"@);
    reveal_strlit("citefullauthor");
    lemma_repeats("citefullauthor"@);
    reveal_strlit("Citefullauthor");
    lemma_repeats("Citefullauthor"@);
    reveal_strlit("citeyear");
    lemma_repeats("citeyear"@);
    reveal_strlit("citeyearpar");
    lemma_repeats("citeyearpar"@);
    reveal_strlit("citetalias");
    lemma_repeats("citetalias"@);
    reveal_strlit("citepalias");
    lemma_repeats("citepalias"@);
    reveal_strlit("parencite");
    lemma_repeats("parencite"@);
    reveal_strlit("Parencite");
    lemma_repeats("Parencite"@);
    reveal_strlit("footcite");
    lemma_repeats("footcite"@);
    reveal_strlit("Footcite");
    lemma_repeats("Footcite"@);
    reveal_strlit("footcitetext");
    lemma_repeats("footcitetext"@);
    reveal_strlit("Footcitetext");
    lemma_repeats("Footcitetext"@);
    reveal_strlit("textcite");
    lemma_repeats("textcite"@);
    reveal_strlit("Textcite");
    lemma_repeats("Textcite"@);
    reveal_strlit("smartcite");
    lemma_repeats("smartcite"@);
    reveal_strlit("Smartcite");
    lemma_repeats("Smartcite"@);
    reveal_strlit("autocite");
    lemma_repeats("autocite"@);
    reveal_strlit("Autocite");
    lemma_repeats("Autocite"@);
    reveal_strlit("supercite");
    lemma_repeats("supercite"@);
    reveal_strlit("fullcite");
    lemma_repeats("fullcite"@);
    reveal_strlit("footfullcite");
    lemma_repeats("footfullcite"@);
    reveal_strlit("citetitle");
    lemma_repeats("citetitle"@);
    reveal_strlit("Citetitle");
    lemma_repeats("Citetitle"@);
    reveal_strlit("citedate");
    lemma_repeats("citedate"@);
    reveal_strlit("citeurl");
    lemma_repeats("citeurl"@);
    reveal_strlit("notecite");
    lemma_repeats("notecite"@);
    reveal_strlit("Notecite");
    lemma_repeats("Notecite"@);
    reveal_strlit("pnotecite");
    lemma_repeats("pnotecite"@);
    reveal_strlit("Pnotecite");
    lemma_repeats("Pnotecite"@);
    reveal_strlit("fnotecite");
    lemma_repeats("fnotecite"@);
    reveal_strlit("Fnotecite");
    lemma_repeats("Fnotecite"@);
    reveal_strlit("citename");
    lemma_repeats("citename"@);
    reveal_strlit("citelist");
    lemma_repeats("citelist"@);
    reveal_strlit("citefield");
    lemma_repeats("citefield"@);
    reveal_strlit("cites");
    lemma_repeats("cites"@);
    reveal_strlit("Cites");
    lemma_repeats("Cites"@);
    reveal_strlit("parencites");
    lemma_repeats("parencites"@);
    reveal_strlit("Parencites");
    lemma_repeats("Parencites"@);
    reveal_strlit("textcites");
    lemma_repeats("textcites"@);
    reveal_strlit("Textcites");
    lemma_repeats("Textcites"@);
    reveal_strlit("autocites");
    lemma_repeats("autocites"@);
    reveal_strlit("Autocites");
    lemma_repeats("Autocites"@);
    reveal_strlit("footcites");
    lemma_repeats("footcites"@);
    reveal_strlit("Footcites");
    lemma_repeats("Footcites"@);
    reveal_strlit("smartcites");
    lemma_repeats("smartcites"@);
    reveal_strlit("Smartcites");
    lemma_repeats("Smartcites"@);
    reveal_strlit("supercites");
    lemma_repeats("supercites"@);
    reveal_strlit("volcite");
    lemma_repeats("volcite"@);
    reveal_strlit("Volcite");
    lemma_repeats("Volcite"@);
    reveal_strlit("pvolcite");
    lemma_repeats("pvolcite"@);
    reveal_strlit("Pvolcite");
    lemma_repeats("Pvolcite"@);
    reveal_strlit("fvolcite");
    lemma_repeats("fvolcite"@);
    reveal_strlit("Fvolcite");
    lemma_repeats("Fvolcite"@);
    reveal_strlit("tvolcite");
    lemma_repeats("tvolcite"@);
    reveal_strlit("Tvolcite");
    lemma_repeats("Tvolcite"@);
    reveal_strlit("avolcite");
    lemma_repeats("avolcite"@);
    reveal_strlit("Avolcite");
    lemma_repeats("Avolcite"@);
    reveal_strlit("svolcite");
    lemma_repeats("svolcite"@);
    reveal_strlit("Svolcite");
    lemma_repeats("Svolcite"@);
    reveal_strlit("volcites");
    lemma_repeats("volcites"@);
    reveal_strlit("Volcites");
    lemma_repeats("Volcites"@);
    reveal_strlit("pvolcites");
    lemma_repeats("pvolcites"@);
    reveal_strlit("Pvolcites");
    lemma_repeats("Pvolcites"@);
    reveal_strlit("fvolcites");
    lemma_repeats("fvolcites"@);
    reveal_strlit("Fvolcites");
    lemma_repeats("Fvolcites"@);
    reveal_strlit("tvolcites");
    lemma_repeats("tvolcites"@);
    reveal_strlit("Tvolcites");
    lemma_repeats("Tvolcites"@);
    reveal_strlit("avolcites");
    lemma_repeats("avolcites"@);
    reveal_strlit("Avolcites");
    lemma_repeats("Avolcites"@);
    reveal_strlit("svolcites");
    lemma_repeats("svolcites"@);
    reveal_strlit("Svolcites");
    lemma_repeats("Svolcites"@);
}

/// The keys of a citation stand in its first argument, in all arguments of a multicite, in the
/// argument behind the volume, and in every second one of a volume multicite; no other argument
/// of any command holds citation keys.
#[verifier::spinoff_prover]
#[verifier::rlimit(60)]
pub proof fn citation_keys_stand_where_the_command_has_them(name: Seq<char>, index: int)
    requires
        index >= 0,
    ensures
        key_role(name, index) == Some(ArgumentRole::Citation(CiteCommand::Nocite)) <==> index == 0 && name == "nocite"@,
        key_role(name, index) == Some(ArgumentRole::Citation(CiteCommand::Cite)) <==> (plain_citation(name) && index == 0)
            || multiple_citation(name) || (volume_citation(name) && index == 1) || (multiple_volume_citation(name)
            && index % 2 == 1),
{
    lemma_repeating_citations();
    lemma_spelled_labels();
    lemma_spelled_references();
    lemma_spelled_citations();
}

/// The first argument of a definition command of glossary entries, acronyms or abbreviations is
/// the key that it defines, and no other argument is.
#[verifier::spinoff_prover]
#[verifier::rlimit(60)]
pub proof fn glossary_keys_are_defined_in_the_first_argument(name: Seq<char>, index: int)
    requires
        index >= 0,
    ensures
        key_role(name, index) == Some(ArgumentRole::GlossaryDefinition(GlossaryDefKind::Entry)) <==> index == 0
            && entry_definer(name),
        key_role(name, index) == Some(ArgumentRole::GlossaryDefinition(GlossaryDefKind::Acronym)) <==> index == 0
            && acronym_definer(name),
        key_role(name, index) == Some(ArgumentRole::GlossaryDefinition(GlossaryDefKind::Abbreviation)) <==> index == 0
            && name == "newabbreviation"@,
{
    lemma_spelled_labels();
    lemma_spelled_references();
    lemma_spelled_citations();
    lemma_spelled_definitions();
}

/// The first argument of a command that uses a glossary entry or an acronym is its key, and no
/// other argument is.
#[verifier::spinoff_prover]
#[verifier::rlimit(60)]
pub proof fn glossary_keys_are_used_in_the_first_argument(name: Seq<char>, index: int)
    requires
        index >= 0,
    ensures
        key_role(name, index) == Some(ArgumentRole::GlossaryUse) <==> index == 0 && (entry_use(name) || short_acronym_use(
            name,
        ) || acronym_use(name)),
        glossary_ref_name(name) <==> entry_use(name) || short_acronym_use(name) || acronym_use(name),
{
    lemma_spelled_labels();
    lemma_spelled_references();
    lemma_spelled_citations();
    lemma_spelled_definitions();
    lemma_spelled_uses();
}

/// The first argument of a color definition is the color, and no other argument is.
#[verifier::spinoff_prover]
#[verifier::rlimit(60)]
pub proof fn colors_are_defined_in_the_first_argument(name: Seq<char>, index: int)
    requires
        index >= 0,
    ensures
        key_role(name, index) == Some(ArgumentRole::ColorDefinition(ColorDefKind::DefineColor)) <==> index == 0 && name
            == "definecolor"@,
        key_role(name, index) == Some(ArgumentRole::ColorDefinition(ColorDefKind::ProvideColor)) <==> index == 0 && name
            == "providecolor"@,
        key_role(name, index) == Some(ArgumentRole::ColorDefinition(ColorDefKind::Colorlet)) <==> index == 0 && name
            == "colorlet"@,
{
    lemma_spelled_labels();
    lemma_spelled_references();
    lemma_spelled_citations();
    lemma_spelled_definitions();
    lemma_spelled_uses();
}

/// The argument that names a file, and what kind of file it is, for each command that names one.
pub proof fn files_are_named_by_known_commands(name: Seq<char>)
    ensures
        file_role_of(name) == Some(
            FileRole { kind: FileRoleKind::Source(SourceRole::Input), argument: 0, directory: None, list: false },
        ) <==> name == "input"@,
        file_role_of(name) == Some(
            FileRole { kind: FileRoleKind::Source(SourceRole::Include), argument: 0, directory: None, list: false },
        ) <==> name == "include"@,
        file_role_of(name) == Some(
            FileRole { kind: FileRoleKind::Source(SourceRole::Import), argument: 1, directory: Some(0), list: false },
        ) <==> (name == "import"@ || name == "inputfrom"@ || name == "includefrom"@),
        file_role_of(name) == Some(
            FileRole { kind: FileRoleKind::Source(SourceRole::SubImport), argument: 1, directory: Some(0), list: false },
        ) <==> (name == "subimport"@ || name == "subinputfrom"@ || name == "subincludefrom"@),
        file_role_of(name) == Some(
            FileRole { kind: FileRoleKind::Source(SourceRole::SubFile), argument: 0, directory: None, list: false },
        ) <==> name == "subfile"@,
        file_role_of(name) == Some(
            FileRole { kind: FileRoleKind::Source(SourceRole::SubFileInclude), argument: 0, directory: None, list: false },
        ) <==> name == "subfileinclude"@,
        file_role_of(name) == Some(
            FileRole { kind: FileRoleKind::Source(SourceRole::Glossary), argument: 0, directory: None, list: false },
        ) <==> name == "loadglsentries"@,
        file_role_of(name) == Some(
            FileRole { kind: FileRoleKind::Bibliography, argument: 0, directory: None, list: true },
        ) <==> name == "bibliography"@,
        file_role_of(name) == Some(
            FileRole { kind: FileRoleKind::Bibliography, argument: 0, directory: None, list: false },
        ) <==> name == "addbibresource"@,
        file_role_of(name) == Some(
            FileRole { kind: FileRoleKind::Package, argument: 0, directory: None, list: true },
        ) <==> (name == "usepackage"@ || name == "RequirePackage"@ || name == "RequirePackageWithOptions"@),
        file_role_of(name) == Some(
            FileRole { kind: FileRoleKind::Class, argument: 0, directory: None, list: false },
        ) <==> (name == "documentclass"@ || name == "LoadClass"@ || name == "LoadClassWithOptions"@),
        file_role_of(name) == Some(
            FileRole { kind: FileRoleKind::Graphics, argument: 0, directory: None, list: false },
        ) <==> name == "includegraphics"@,
        file_role_of(name) == Some(
            FileRole { kind: FileRoleKind::Svg, argument: 0, directory: None, list: false },
        ) <==> name == "includesvg"@,
        file_role_of(name) == Some(
            FileRole { kind: FileRoleKind::Inkscape, argument: 0, directory: None, list: false },
        ) <==> name == "includeinkscape"@,
        file_role_of(name) == Some(
            FileRole { kind: FileRoleKind::Raw, argument: 0, directory: None, list: false },
        ) <==> (name == "verbatiminput"@ || name == "VerbatimInput"@ || name == "lstinputlisting"@),
        file_role_of(name) == Some(
            FileRole { kind: FileRoleKind::Raw, argument: 1, directory: None, list: false },
        ) <==> name == "inputminted"@,
        file_role_of(name) is Some ==> file_role_of(name)->0.argument <= 1,
{
    lemma_spelled_files();
}

/// The citation commands are those with citation keys, and `nocite` alone takes the wildcard.
pub proof fn citations_are_made_by_known_commands(name: Seq<char>)
    ensures
        cite_command_of(name) == Some(CiteCommand::Nocite) <==> name == "nocite"@,
        cite_command_of(name) == Some(CiteCommand::Cite) <==> plain_citation(name) || multiple_citation(name)
            || volume_citation(name) || multiple_volume_citation(name),
{
    lemma_spelled_citations();
}

/// The reference commands, each with the kind of reference that it makes.
pub proof fn references_are_made_by_known_commands(name: Seq<char>)
    ensures
        ref_command_of(name) == Some(RefCommand::Ref) <==> plain_reference(name),
        ref_command_of(name) == Some(RefCommand::PageRef) <==> name == "pageref"@,
        ref_command_of(name) == Some(RefCommand::EqRef) <==> name == "eqref"@,
        ref_command_of(name) == Some(RefCommand::AutoRef) <==> name == "autoref"@,
        ref_command_of(name) == Some(RefCommand::NameRef) <==> name == "nameref"@,
        ref_command_of(name) == Some(RefCommand::Cref) <==> name == "cref"@,
        ref_command_of(name) == Some(RefCommand::CrefUpper) <==> name == "Cref"@,
        ref_command_of(name) == Some(RefCommand::Vref) <==> name == "vref"@,
        ref_command_of(name) == Some(RefCommand::VrefUpper) <==> name == "Vref"@,
        ref_command_of(name) == Some(RefCommand::CpageRef) <==> name == "cpageref"@ || name == "Cpageref"@ || range_reference(
            name,
        ),
{
    lemma_spelled_references();
}

/// Every file that a list names takes part, whatever else the list names.
pub proof fn listed_files_take_part(names: Vec<SmolStr>, i: int)
    requires
        0 <= i < names@.len(),
    ensures
        IncludeOnly::Literal(names).takes(small(names@[i])) == Some(true),
{
    assert(plain_name(small(names@[i])) == plain_name(small(names@[i])));
}

/// A file takes part exactly where a listed name is its name, white space around either and the
/// suffix of a source file apart.
pub proof fn only_listed_files_take_part(names: Vec<SmolStr>, name: Seq<char>)
    ensures
        IncludeOnly::Literal(names).takes(name) == Some(true) <==> exists|i: int|
            0 <= i < names@.len() && same_file(#[trigger] small(names@[i]), name),
{
    if exists|i: int| 0 <= i < names@.len() && plain_name(#[trigger] small(names@[i])) == plain_name(name) {
        let i = choose|i: int| 0 <= i < names@.len() && plain_name(#[trigger] small(names@[i])) == plain_name(name);
        lemma_same_file(small(names@[i]), name);
    }
    if exists|i: int| 0 <= i < names@.len() && same_file(#[trigger] small(names@[i]), name) {
        let i = choose|i: int| 0 <= i < names@.len() && same_file(#[trigger] small(names@[i]), name);
        lemma_same_file(small(names@[i]), name);
        assert(plain_name(small(names@[i])) == plain_name(name));
    }
}

/// A name without its suffix: `stem` is the name, or the name is `stem` and the suffix.
pub open spec fn stem_of(bare: Seq<char>, stem: Seq<char>) -> bool {
    if has_tail(bare, ".tex"@) {
        bare == stem + ".tex"@
    } else {
        bare == stem
    }
}

/// Two names are those of one file: without white space around them, they have the same stem.
pub open spec fn same_file(a: Seq<char>, b: Seq<char>) -> bool {
    exists|stem: Seq<char>| #[trigger] stem_of(trimmed(a), stem) && stem_of(trimmed(b), stem)
}

proof fn lemma_stem(name: Seq<char>)
    ensures
        stem_of(trimmed(name), plain_name(name)),
        forall|stem: Seq<char>| #[trigger] stem_of(trimmed(name), stem) ==> stem == plain_name(name),
{
    reveal_strlit(".tex");
    let bare = trimmed(name);
    if has_tail(bare, ".tex"@) {
        assert(bare.skip(bare.len() - 4) == ".tex"@);
        assert(bare =~= bare.take(bare.len() - 4) + bare.skip(bare.len() - 4));
        assert forall|stem: Seq<char>| #[trigger] stem_of(bare, stem) implies stem == plain_name(name) by {
            assert(bare.take(bare.len() - 4) =~= stem);
        }
    }
}

proof fn lemma_same_file(a: Seq<char>, b: Seq<char>)
    ensures
        same_file(a, b) <==> plain_name(a) == plain_name(b),
{
    lemma_stem(a);
    lemma_stem(b);
    if same_file(a, b) {
        let stem = choose|stem: Seq<char>| #[trigger] stem_of(trimmed(a), stem) && stem_of(trimmed(b), stem);
        assert(stem == plain_name(a) && stem == plain_name(b));
    }
    if plain_name(a) == plain_name(b) {
        assert(stem_of(trimmed(a), plain_name(a)) && stem_of(trimmed(b), plain_name(a)));
    }
}

/// The names of a comma-separated list are its pieces without white space around them, in order
/// and without the empty ones.
pub proof fn a_list_names_its_pieces(pieces: Seq<Seq<char>>, i: int)
    requires
        0 <= i < pieces.len(),
    ensures
        trimmed(pieces[i]).len() > 0 ==> listed(pieces).contains(trimmed(pieces[i])),
        forall|k: int| 0 <= k < listed(pieces).len() ==> (#[trigger] listed(pieces)[k]).len() > 0,
        listed(pieces).len() <= pieces.len(),
    decreases pieces.len(),
{
    let front = pieces.drop_last();
    let last = trimmed(pieces.last());
    let all = listed(pieces);
    if front.len() > 0 {
        a_list_names_its_pieces(front, if i < front.len() { i } else { 0 });
    } else {
        assert(listed(front) =~= Seq::<Seq<char>>::empty());
    }
    if trimmed(pieces[i]).len() > 0 {
        if i < front.len() {
            assert(front[i] == pieces[i]);
            let k = choose|k: int| 0 <= k < listed(front).len() && listed(front)[k] == trimmed(pieces[i]);
            assert(all[k] == trimmed(pieces[i]));
        } else {
            assert(all[all.len() - 1] == last);
        }
    }
}

} // verus!

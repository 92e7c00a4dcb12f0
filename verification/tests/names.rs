//! What commands say of their arguments.

use std::ops::Range;

use tex_ls::roles::{
    cite_command, file_role, is_glossary_ref_command, key_argument_role, ref_command, ArgumentRole, CiteCommand,
    ColorDefKind, FileRoleKind, GlossaryDefKind, RefCommand, SourceRole,
};

/// The names in the arguments of each command of `source` that `wanted` picks, each with its place.
/// A command is a name, and its braced arguments; optional arguments are skipped.
fn sites(source: &str, wanted: impl Fn(ArgumentRole) -> bool) -> Vec<(String, Range<usize>)> {
    let mut out = Vec::new();
    let mut at = 0;
    while let Some(slash) = source[at..].find('\\') {
        at += slash + 1;
        let end = source[at..].find(|c: char| !c.is_ascii_alphabetic()).map_or(source.len(), |n| at + n);
        let name = &source[at..end];
        at = end;
        let mut index = 0;
        loop {
            if source[at..].starts_with('[') {
                at += source[at..].find(']').unwrap() + 1;
            } else if source[at..].starts_with('{') {
                let close = at + source[at..].find('}').unwrap();
                let mut start = at + 1;
                if key_argument_role(name, index).is_some_and(&wanted) {
                    for key in source[at + 1..close].split(',') {
                        out.push((key.to_string(), start..start + key.len()));
                        start += key.len() + 1;
                    }
                }
                at = close + 1;
                index += 1;
            } else {
                break;
            }
        }
    }
    out
}

fn keys(source: &str, wanted: impl Fn(ArgumentRole) -> bool) -> Vec<String> {
    sites(source, wanted).into_iter().map(|site| site.0).collect()
}

fn citations(source: &str) -> Vec<String> {
    keys(source, |role| matches!(role, ArgumentRole::Citation(_)))
}

#[test]
fn uppercase_multicite_keeps_every_key_argument() {
    assert_eq!(citations(r"\Cites{alpha}[see]{beta,gamma}"), ["alpha", "beta", "gamma"]);
}

#[test]
fn range_and_volume_roles_select_only_identifier_arguments() {
    let source = r"\zlabel{one}\crefrange{one}{two}\cites[see]{alpha}[also]{beta,gamma}\volcites{7}{delta}{9}[p.2]{epsilon}";
    assert_eq!(keys(source, |role| matches!(role, ArgumentRole::Label)), ["one"]);
    assert_eq!(keys(source, |role| matches!(role, ArgumentRole::Reference(_))), ["one", "two"]);
    assert_eq!(citations(source), ["alpha", "beta", "gamma", "delta", "epsilon"]);
    for (name, key_range) in sites(source, |role| matches!(role, ArgumentRole::Citation(_))) {
        assert_eq!(&source[key_range], name);
    }
}

#[test]
fn acronym_package_families_feed_definitions_and_uses() {
    let source = r"\DeclareAcronym{cpu}{short=CPU,long=processor}\newacro{ram}[RAM]{memory}\acrodef{rom}[ROM]{read-only memory}\acrshort{cpu}\ac{ram}\acf{rom}";
    assert_eq!(
        keys(source, |role| matches!(role, ArgumentRole::GlossaryDefinition(_))),
        ["cpu", "ram", "rom"]
    );
    assert_eq!(keys(source, |role| matches!(role, ArgumentRole::GlossaryUse)), ["cpu", "ram", "rom"]);
}

#[test]
fn the_citation_table_is_closed() {
    assert_eq!(cite_command("nocite"), Some(CiteCommand::Nocite));
    assert_eq!(cite_command("citep"), Some(CiteCommand::Cite));
    assert_eq!(cite_command("citestyle"), None);
    assert_eq!(cite_command("citetext"), None);
    assert_eq!(key_argument_role("cite", 1), None);
    assert_eq!(key_argument_role("volcite", 0), None);
    assert_eq!(key_argument_role("volcite", 1), Some(ArgumentRole::Citation(CiteCommand::Cite)));
    assert_eq!(key_argument_role("volcite", 3), None);
    assert_eq!(key_argument_role("bibitem", 0), Some(ArgumentRole::BibliographyItem));
    assert_eq!(key_argument_role("bibitem", 1), None);
}

#[test]
fn references_and_definers_are_told_apart() {
    assert_eq!(ref_command("Cref"), Some(RefCommand::CrefUpper));
    assert_eq!(ref_command("cpageref"), Some(RefCommand::CpageRef));
    assert_eq!(ref_command("reference"), None);
    assert_eq!(
        key_argument_role("newabbreviation", 0),
        Some(ArgumentRole::GlossaryDefinition(GlossaryDefKind::Abbreviation))
    );
    assert_eq!(
        key_argument_role("colorlet", 0),
        Some(ArgumentRole::ColorDefinition(ColorDefKind::Colorlet))
    );
    assert_eq!(key_argument_role("colorlet", 1), None);
}

#[test]
fn glossary_commands_come_in_families() {
    for name in ["gls", "Glspl", "GLS", "glsxtrfull", "acrshort", "AcrfullPL"] {
        assert_eq!(is_glossary_ref_command(name), name != "AcrfullPL", "{name}");
    }
    assert!(is_glossary_ref_command("ACRlongpl"));
    assert!(!is_glossary_ref_command("acrobat"));
}

#[test]
fn files_stand_where_their_commands_say() {
    let import = file_role("import").unwrap();
    assert_eq!(import.kind, FileRoleKind::Source(SourceRole::Import));
    assert_eq!((import.argument, import.directory, import.list), (1, Some(0), false));
    let package = file_role("usepackage").unwrap();
    assert_eq!((package.kind, package.argument, package.list), (FileRoleKind::Package, 0, true));
    assert_eq!(file_role("inputminted").unwrap().argument, 1);
    assert!(file_role("inputs").is_none());
}

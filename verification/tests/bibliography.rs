//! Bibliography files: what they define and use, and edits of their words.

use tex_ls::bib_model::{build, BibItem, RawEntry, RawField, RawName, RawString, RawUse, RawValue};
use tex_ls::bib_reparse::{questions, reparse, Answer, BibError, BibKind, BibParse, BibToken, Edit};
use tex_ls::syntax::Span;

// ---- reading -------------------------------------------------------------------------------

struct Reader<'a> {
    text: &'a str,
    at: usize,
}

impl<'a> Reader<'a> {
    fn peek(&self) -> Option<char> {
        self.text[self.at..].chars().next()
    }

    fn next(&mut self) -> Option<char> {
        let c = self.peek()?;
        self.at += c.len_utf8();
        Some(c)
    }

    fn blanks(&mut self) {
        while self.peek().is_some_and(|c| c.is_whitespace()) {
            self.next();
        }
    }

    fn word(&mut self) -> (String, Span) {
        let start = self.at;
        while self.peek().is_some_and(|c| c.is_alphanumeric() || c == '-' || c == '_') {
            self.next();
        }
        (self.text[start..self.at].to_string(), Span { start, end: self.at })
    }

    fn braced(&mut self) -> String {
        let mut depth = 0;
        let mut out = String::new();
        while let Some(c) = self.next() {
            if c == '{' {
                depth += 1;
                if depth == 1 {
                    continue;
                }
            }
            if c == '}' {
                depth -= 1;
                if depth == 0 {
                    break;
                }
            }
            if c != '{' && c != '}' {
                out.push(c);
            }
        }
        out
    }

    fn value(&mut self) -> Option<RawValue> {
        let mut cleaned = String::new();
        let mut uses = Vec::new();
        let mut any = false;
        loop {
            self.blanks();
            match self.peek() {
                Some('{') => {
                    cleaned.push_str(&self.braced());
                    any = true;
                }
                Some(c) if c.is_alphanumeric() => {
                    let (name, range) = self.word();
                    cleaned.push_str(&name);
                    uses.push(RawUse { name, range });
                    any = true;
                }
                _ => {}
            }
            self.blanks();
            if self.peek() == Some('#') {
                self.next();
            } else {
                break;
            }
        }
        if any {
            Some(RawValue { cleaned, uses })
        } else {
            None
        }
    }

    fn fields(&mut self) -> Vec<RawField> {
        let mut out = Vec::new();
        loop {
            self.blanks();
            match self.peek() {
                Some(',') => {
                    self.next();
                }
                Some(c) if c.is_alphanumeric() => {
                    let (name, _) = self.word();
                    self.blanks();
                    if self.peek() == Some('=') {
                        self.next();
                        let value = self.value();
                        out.push(RawField { name: Some(name), value });
                    }
                }
                Some('=') => {
                    self.next();
                    let value = self.value();
                    out.push(RawField { name: None, value });
                }
                Some('}') => {
                    self.next();
                    break;
                }
                None | Some('@') => break,
                Some(_) => {
                    self.next();
                }
            }
        }
        out
    }
}

fn items(text: &str) -> Vec<BibItem> {
    let mut reader = Reader { text, at: 0 };
    let mut out = Vec::new();
    while let Some(c) = reader.peek() {
        if c != '@' {
            reader.next();
            continue;
        }
        let start = reader.at;
        reader.next();
        let (kind, _) = reader.word();
        reader.blanks();
        if reader.peek() != Some('{') {
            out.push(BibItem::Other);
            continue;
        }
        match kind.to_lowercase().as_str() {
            "comment" | "preamble" => {
                reader.braced();
                out.push(BibItem::Other);
            }
            "string" => {
                reader.next();
                reader.blanks();
                let at = reader.at;
                let (text, range) = reader.word();
                let name = if text.is_empty() { None } else { Some(RawName { text, range }) };
                reader.at = at;
                let fields = reader.fields();
                out.push(BibItem::StringEntry(RawString { name, fields }));
            }
            _ => {
                reader.next();
                reader.blanks();
                let at = reader.at;
                let (text, range) = reader.word();
                reader.blanks();
                let key = if text.is_empty() || reader.peek() == Some('=') {
                    reader.at = at;
                    None
                } else {
                    Some(RawName { text, range })
                };
                let fields = reader.fields();
                let entry_type = if kind.is_empty() { None } else { Some(kind) };
                out.push(BibItem::Entry(RawEntry {
                    entry_type,
                    key,
                    fields,
                    range: Span { start, end: reader.at },
                }));
            }
        }
    }
    out
}

// ---- what a file defines and uses ----------------------------------------------------------

fn first_of(fields: &[RawField], wanted: &str) -> Option<String> {
    let field = fields.iter().find(|f| {
        f.value.is_some() && f.name.as_ref().is_some_and(|n| n.eq_ignore_ascii_case(wanted))
    })?;
    let text = field.value.as_ref().unwrap().cleaned.clone();
    if text.is_empty() {
        None
    } else {
        Some(text)
    }
}

type Facts = (Vec<(String, String, Option<String>, Option<String>, bool)>, Vec<String>, Vec<(String, bool)>);

/// The facts of a file, each read off its items by itself.
fn reference(items: &[BibItem]) -> Facts {
    let mut entries = Vec::new();
    let mut defs = Vec::new();
    let mut uses = Vec::new();
    for item in items {
        let fields = match item {
            BibItem::Entry(e) => {
                if let Some(key) = &e.key {
                    let kind = e.entry_type.clone().unwrap_or_default().to_lowercase();
                    let authors = first_of(&e.fields, "author").or(first_of(&e.fields, "editor"));
                    entries.push((kind, key.text.clone(), first_of(&e.fields, "title"), authors, false));
                }
                &e.fields
            }
            BibItem::StringEntry(s) => {
                if let Some(name) = &s.name {
                    defs.push(name.text.to_lowercase());
                }
                &s.fields
            }
            BibItem::Other => continue,
        };
        for value in fields.iter().filter_map(|f| f.value.as_ref()) {
            uses.extend(value.uses.iter().map(|u| u.name.to_lowercase()));
        }
    }
    for i in 0..entries.len() {
        let key = entries[i].1.to_lowercase();
        entries[i].4 = entries[..i].iter().any(|e| e.1.to_lowercase() == key);
    }
    let months = ["jan", "feb", "mar", "apr", "may", "jun", "jul", "aug", "sep", "oct", "nov", "dec"];
    let uses = uses
        .into_iter()
        .map(|name| {
            let known = defs.contains(&name) || months.contains(&name.as_str());
            (name, known)
        })
        .collect();
    (entries, defs, uses)
}

fn built(items: &Vec<BibItem>) -> Facts {
    let model = build(items);
    (
        model
            .entries
            .iter()
            .map(|e| {
                (
                    e.entry_type.to_string(),
                    e.key.to_string(),
                    e.title.as_ref().map(|t| t.to_string()),
                    e.authors.as_ref().map(|t| t.to_string()),
                    e.duplicate,
                )
            })
            .collect(),
        model.string_defs.iter().map(|d| d.name.to_string()).collect(),
        model.string_uses.iter().map(|u| (u.name.to_string(), u.resolved)).collect(),
    )
}

fn compare(source: &str) {
    let items = items(source);
    assert_eq!(built(&items), reference(&items), "{source}");
}

#[test]
fn collection_matches_original_through_recovery_and_duplicate_fields() {
    for source in [
        "@misc{k,title={},TITLE={later},author={},author={later},editor={Fallback}}",
        "@misc{k,title=,title={later},author=,editor=macro # {Editor}}",
        "@string{publisher=other}@misc{K,title={@string{x=ignored}},author=publisher}@misc{k,title=jan}",
        "@misc{,title=missing,editor=jan}@comment{tex-ls-lint skip}@misc{key,author=unknown}",
        "@preamble{unknown}@string{foo=bar # baz}@misc{k,title={Nested {ABC}},editor={É Name}}",
    ] {
        compare(source);
        for (at, c) in source.char_indices() {
            let mut changed = source.to_owned();
            changed.replace_range(at..at + c.len_utf8(), "");
            compare(&changed);
        }
    }
}

#[test]
fn an_empty_first_author_gives_way_to_the_editor() {
    let (entries, _, _) = built(&items("@Misc{Key,title={},TITLE={later},author={},author={later},editor={Fallback}}"));
    assert_eq!(
        entries,
        vec![("misc".to_string(), "Key".to_string(), None, Some("Fallback".to_string()), false)]
    );
}

#[test]
fn later_entries_of_a_key_are_marked_in_any_letter_case() {
    let (entries, _, _) = built(&items("@misc{A}@book{a}@misc{b}"));
    assert_eq!(entries.iter().map(|e| e.4).collect::<Vec<_>>(), [false, true, false]);
}

#[test]
fn macros_are_resolved_by_definitions_anywhere_and_by_month_names() {
    let (_, defs, uses) = built(&items("@misc{k,title=Pub,author=JAN,note=other}@string{pub={x}}"));
    assert_eq!(defs, ["pub"]);
    assert_eq!(
        uses,
        [("pub".to_string(), true), ("jan".to_string(), true), ("other".to_string(), false)]
    );
}

// ---- edits ---------------------------------------------------------------------------------

fn lex(text: &[u8]) -> Vec<(BibKind, usize)> {
    let mut out = Vec::new();
    let mut i = 0;
    while i < text.len() {
        let start = i;
        let kind = match text[i] {
            b'@' => BibKind::At,
            b',' => BibKind::Comma,
            b'=' => BibKind::Equals,
            b'#' => BibKind::Hash,
            b'{' => BibKind::LBrace,
            b'}' => BibKind::RBrace,
            b'\n' => BibKind::Newline,
            b' ' => BibKind::Whitespace,
            _ => BibKind::Word,
        };
        if kind == BibKind::Word {
            while i < text.len() && !b"@,=#{}\n ".contains(&text[i]) {
                i += 1;
            }
            let digits = text[start..i].iter().all(|b| b.is_ascii_digit());
            out.push((if digits { BibKind::Number } else { BibKind::Word }, i));
        } else {
            i += 1;
            out.push((kind, i));
        }
    }
    out
}

fn parse(text: &str) -> BibParse {
    let mut tokens: Vec<BibToken> = Vec::new();
    let mut start = 0;
    for (kind, end) in lex(text.as_bytes()) {
        let entry_type = tokens.last().is_some_and(|t| t.kind == BibKind::At);
        tokens.push(BibToken { kind, start, end, entry_type });
        start = end;
    }
    BibParse { tokens, errors: Vec::new() }
}

fn edited(text: &str, base: &BibParse, start: usize, end: usize, insert: &str) -> Option<BibParse> {
    let new_text = format!("{}{}{}", &text[..start], insert, &text[end..]);
    let edit = Edit { start, end, insert: insert.as_bytes().to_vec() };
    let bytes = text.as_bytes().to_vec();
    let new_bytes = new_text.as_bytes().to_vec();
    let answers: Vec<Answer> = questions(&bytes, base, &edit, &new_bytes)
        .iter()
        .map(|q| Answer {
            replacement: lex(&q.replacement).iter().map(|t| t.0).collect(),
            probe: lex(&q.probe).iter().map(|t| t.0).collect(),
        })
        .collect();
    let r = reparse(&bytes, base, &edit, &new_bytes, &answers);
    if let Some(parse_of_edit) = &r {
        assert_eq!(parse_of_edit.tokens, parse(&new_text).tokens);
    }
    r
}

#[test]
fn an_edit_inside_a_word_is_spliced() {
    let text = "@misc{key,year=2020}";
    let base = parse(text);
    assert!(edited(text, &base, 7, 8, "ee").is_some());
    assert!(edited(text, &base, 17, 17, "99").is_some());
    assert!(edited(text, &base, 9, 9, "s").is_some());
}

#[test]
fn an_edit_that_changes_a_kind_is_not_spliced() {
    let text = "@misc{key,year=2020}";
    let base = parse(text);
    assert!(edited(text, &base, 7, 8, ",").is_none());
    assert!(edited(text, &base, 17, 17, "x").is_none());
    assert!(edited(text, &base, 9, 10, "").is_none());
}

#[test]
fn an_edit_of_an_entry_type_is_not_spliced() {
    let text = "@misc{key}";
    assert!(edited(text, &parse(text), 2, 3, "u").is_none());
}

#[test]
fn an_edit_that_is_too_long_is_not_spliced() {
    let text = "@misc{key}";
    assert!(edited(text, &parse(text), 7, 7, &"a".repeat(4096)).is_some());
    assert!(edited(text, &parse(text), 7, 7, &"a".repeat(4097)).is_none());
}

#[test]
fn diagnostics_move_with_the_text() {
    let text = "@misc{key x}";
    let mut base = parse(text);
    let message = "oops".to_string();
    base.errors.push(BibError { start: 0, end: 1, message: message.clone() });
    base.errors.push(BibError { start: 10, end: 11, message });
    let r = edited(text, &base, 7, 8, "123").unwrap();
    let places: Vec<(usize, usize)> = r.errors.iter().map(|e| (e.start, e.end)).collect();
    assert_eq!(places, [(0, 1), (12, 13)]);
    assert_eq!(r.errors[0].message, "oops");
    base.errors.push(BibError { start: 6, end: 8, message: String::new() });
    assert!(edited(text, &base, 7, 8, "123").is_none());
}

#[test]
fn an_edit_that_cuts_a_character_is_refused() {
    let text = "@misc{k\u{e9}y}".as_bytes().to_vec();
    let base = parse("@misc{k\u{e9}y}");
    let edit = Edit { start: 8, end: 9, insert: vec![0xa8] };
    let new_text = "@misc{k\u{e8}y}".as_bytes().to_vec();
    assert!(questions(&text, &base, &edit, &new_text).is_empty());
    assert!(reparse(&text, &base, &edit, &new_text, &Vec::new()).is_none());
}

#[test]
fn a_text_that_is_not_the_edited_one_is_refused() {
    let text = b"@misc{key}".to_vec();
    let base = parse("@misc{key}");
    let edit = Edit { start: 7, end: 8, insert: b"o".to_vec() };
    assert!(reparse(&text, &base, &edit, &b"@misc{kxy}".to_vec(), &Vec::new()).is_none());
}

//! What a bibliography file defines and uses.

use smol_str::SmolStr;
use vstd::hash_set::StringHashSet;
use vstd::prelude::*;

use crate::syntax::Span;
use crate::text::{chars_of, small_str, small_string, to_lowercase};
use crate::text::{lower, small};

verus! {

/// A use of a string macro in a value.
pub struct RawUse {
    pub name: String,
    pub range: Span,
}

/// The value of a field.
pub struct RawValue {
    /// The text without its delimiters and TeX markup.
    pub cleaned: String,
    /// The string macros that it uses.
    pub uses: Vec<RawUse>,
}

/// A field of an entry. Either half may be missing.
pub struct RawField {
    pub name: Option<String>,
    pub value: Option<RawValue>,
}

/// A key or a name, and where it stands.
pub struct RawName {
    pub text: String,
    pub range: Span,
}

/// An entry as it stands in the file.
pub struct RawEntry {
    pub entry_type: Option<String>,
    pub key: Option<RawName>,
    pub fields: Vec<RawField>,
    pub range: Span,
}

/// A string definition as it stands in the file.
pub struct RawString {
    pub name: Option<RawName>,
    pub fields: Vec<RawField>,
}

/// An item of a bibliography file.
pub enum BibItem {
    Entry(RawEntry),
    StringEntry(RawString),
    Other,
}

/// An entry with a key.
pub struct Entry {
    pub entry_type: SmolStr,
    pub key: SmolStr,
    pub title: Option<SmolStr>,
    pub authors: Option<SmolStr>,
    pub key_range: Span,
    pub range: Span,
    /// Whether an earlier entry has the same key, in any letter case.
    pub duplicate: bool,
}

/// A string that the file defines.
pub struct StringDef {
    pub name: SmolStr,
    pub range: Span,
}

/// A use of a string macro.
pub struct StringUse {
    pub name: SmolStr,
    pub range: Span,
    /// Whether the file or the program defines the macro.
    pub resolved: bool,
}

/// What a bibliography file defines and uses.
pub struct Model {
    pub entries: Vec<Entry>,
    pub string_defs: Vec<StringDef>,
    pub string_uses: Vec<StringUse>,
}

// ---- contents ------------------------------------------------------------------------------

/// The content of an [`Entry`].
pub ghost struct EntryFact {
    pub entry_type: Seq<char>,
    pub key: Seq<char>,
    pub title: Option<Seq<char>>,
    pub authors: Option<Seq<char>>,
    pub key_range: Span,
    pub range: Span,
    pub duplicate: bool,
}

/// The content of a name with its place.
pub ghost struct NameFact {
    pub name: Seq<char>,
    pub range: Span,
}

pub open spec fn text_of(text: Option<SmolStr>) -> Option<Seq<char>> {
    match text {
        Some(text) => Some(small(text)),
        None => None,
    }
}

impl View for Entry {
    type V = EntryFact;

    open spec fn view(&self) -> EntryFact {
        EntryFact {
            entry_type: small(self.entry_type),
            key: small(self.key),
            title: text_of(self.title),
            authors: text_of(self.authors),
            key_range: self.key_range,
            range: self.range,
            duplicate: self.duplicate,
        }
    }
}

impl Model {
    /// The entries, as contents.
    pub open spec fn entry_facts(&self) -> Seq<EntryFact> {
        Seq::new(self.entries@.len(), |i: int| self.entries@[i]@)
    }

    pub open spec fn def_facts(&self) -> Seq<NameFact> {
        Seq::new(
            self.string_defs@.len(),
            |i: int| NameFact { name: small(self.string_defs@[i].name), range: self.string_defs@[i].range },
        )
    }

    pub open spec fn use_facts(&self) -> Seq<NameFact> {
        Seq::new(
            self.string_uses@.len(),
            |i: int| NameFact { name: small(self.string_uses@[i].name), range: self.string_uses@[i].range },
        )
    }

    fn new() -> (r: Model)
        ensures
            r.entry_facts() == Seq::<EntryFact>::empty(),
            r.def_facts() == Seq::<NameFact>::empty(),
            r.use_facts() == Seq::<NameFact>::empty(),
    {
        let r = Model { entries: Vec::new(), string_defs: Vec::new(), string_uses: Vec::new() };
        assert(r.entry_facts() =~= Seq::<EntryFact>::empty());
        assert(r.def_facts() =~= Seq::<NameFact>::empty());
        assert(r.use_facts() =~= Seq::<NameFact>::empty());
        r
    }

    fn push_entry(&mut self, e: Entry)
        ensures
            final(self).entry_facts() == old(self).entry_facts().push(e@),
            final(self).def_facts() == old(self).def_facts(),
            final(self).use_facts() == old(self).use_facts(),
    {
        let ghost before = *self;
        self.entries.push(e);
        assert(self.entry_facts() =~= before.entry_facts().push(e@));
        assert(self.def_facts() =~= before.def_facts());
        assert(self.use_facts() =~= before.use_facts());
    }

    fn push_def(&mut self, name: SmolStr, range: Span)
        ensures
            final(self).entry_facts() == old(self).entry_facts(),
            final(self).def_facts() == old(self).def_facts().push(NameFact { name: small(name), range }),
            final(self).use_facts() == old(self).use_facts(),
    {
        let ghost before = *self;
        self.string_defs.push(StringDef { name, range });
        assert(self.entry_facts() =~= before.entry_facts());
        assert(self.def_facts() =~= before.def_facts().push(NameFact { name: small(name), range }));
        assert(self.use_facts() =~= before.use_facts());
    }

    fn push_use(&mut self, name: SmolStr, range: Span)
        ensures
            final(self).entry_facts() == old(self).entry_facts(),
            final(self).def_facts() == old(self).def_facts(),
            final(self).use_facts() == old(self).use_facts().push(NameFact { name: small(name), range }),
    {
        let ghost before = *self;
        self.string_uses.push(StringUse { name, range, resolved: false });
        assert(self.entry_facts() =~= before.entry_facts());
        assert(self.def_facts() =~= before.def_facts());
        assert(self.use_facts() =~= before.use_facts().push(NameFact { name: small(name), range }));
    }
}

// ---- what the items say --------------------------------------------------------------------

/// An ASCII letter in lower case.
pub open spec fn ascii_lower(c: char) -> char {
    if 'A' <= c <= 'Z' {
        ((c as u32) + 32) as char
    } else {
        c
    }
}

/// Whether two texts are the same up to the case of ASCII letters.
pub open spec fn same_name(a: Seq<char>, b: Seq<char>) -> bool {
    a.len() == b.len() && forall|i: int| 0 <= i < a.len() ==> ascii_lower(#[trigger] a[i]) == ascii_lower(b[i])
}

/// The value of the first field of this name that has one, among the first `n` fields.
pub open spec fn first_value(fields: Seq<RawField>, n: int, name: Seq<char>) -> Option<Seq<char>>
    decreases n,
{
    if n <= 0 {
        None
    } else {
        match first_value(fields, n - 1, name) {
            Some(text) => Some(text),
            None => match (fields[n - 1].name, fields[n - 1].value) {
                (Some(own), Some(value)) => if same_name(own@, name) {
                    Some(value.cleaned@)
                } else {
                    None
                },
                _ => None,
            },
        }
    }
}

/// A text where it is not empty.
pub open spec fn filled(text: Option<Seq<char>>) -> Option<Seq<char>> {
    match text {
        Some(text) => if text.len() > 0 {
            Some(text)
        } else {
            None
        },
        None => None,
    }
}

/// The macros that a value uses, among the first `n`.
pub open spec fn value_uses(uses: Seq<RawUse>, n: int) -> Seq<NameFact>
    decreases n,
{
    if n <= 0 {
        Seq::empty()
    } else {
        value_uses(uses, n - 1).push(NameFact { name: lower(uses[n - 1].name@), range: uses[n - 1].range })
    }
}

/// The macros that the first `n` fields use.
pub open spec fn field_uses(fields: Seq<RawField>, n: int) -> Seq<NameFact>
    decreases n,
{
    if n <= 0 {
        Seq::empty()
    } else {
        match fields[n - 1].value {
            Some(value) => field_uses(fields, n - 1) + value_uses(value.uses@, value.uses@.len() as int),
            None => field_uses(fields, n - 1),
        }
    }
}

/// The macros that the first `n` items use, in the order in which they stand in the file.
pub open spec fn all_uses(items: Seq<BibItem>, n: int) -> Seq<NameFact>
    decreases n,
{
    if n <= 0 {
        Seq::empty()
    } else {
        match items[n - 1] {
            BibItem::Entry(e) => all_uses(items, n - 1) + field_uses(e.fields@, e.fields@.len() as int),
            BibItem::StringEntry(s) => all_uses(items, n - 1) + field_uses(s.fields@, s.fields@.len() as int),
            BibItem::Other => all_uses(items, n - 1),
        }
    }
}

/// The strings that the first `n` items define.
pub open spec fn all_defs(items: Seq<BibItem>, n: int) -> Seq<NameFact>
    decreases n,
{
    if n <= 0 {
        Seq::empty()
    } else {
        match items[n - 1] {
            BibItem::StringEntry(s) => match s.name {
                Some(name) => all_defs(items, n - 1).push(NameFact { name: lower(name.text@), range: name.range }),
                None => all_defs(items, n - 1),
            },
            _ => all_defs(items, n - 1),
        }
    }
}

/// What an entry with the key `key` says: its first title, and its first author or, where that is
/// empty or missing, its first editor.
pub open spec fn entry_fact(e: RawEntry, key: RawName) -> EntryFact {
    let n = e.fields@.len() as int;
    EntryFact {
        entry_type: lower(
            match e.entry_type {
                Some(name) => name@,
                None => Seq::empty(),
            },
        ),
        key: key.text@,
        title: filled(first_value(e.fields@, n, "title"@)),
        authors: match filled(first_value(e.fields@, n, "author"@)) {
            Some(author) => Some(author),
            None => filled(first_value(e.fields@, n, "editor"@)),
        },
        key_range: key.range,
        range: e.range,
        duplicate: false,
    }
}

/// The entries with a key among the first `n` items.
pub open spec fn all_entries(items: Seq<BibItem>, n: int) -> Seq<EntryFact>
    decreases n,
{
    if n <= 0 {
        Seq::empty()
    } else {
        match items[n - 1] {
            BibItem::Entry(e) => match e.key {
                Some(key) => all_entries(items, n - 1).push(entry_fact(e, key)),
                None => all_entries(items, n - 1),
            },
            _ => all_entries(items, n - 1),
        }
    }
}

/// Whether an earlier entry has the key of entry `i`, in any letter case.
pub open spec fn repeats(entries: Seq<EntryFact>, i: int) -> bool {
    exists|j: int| 0 <= j < i && lower(#[trigger] entries[j].key) == lower(entries[i].key)
}

/// The entries with the repeated keys marked.
pub open spec fn marked(entries: Seq<EntryFact>) -> Seq<EntryFact> {
    Seq::new(entries.len(), |i: int| EntryFact { duplicate: repeats(entries, i), ..entries[i] })
}

/// Whether a name is one of the month macros that every program defines.
pub open spec fn is_month(name: Seq<char>) -> bool {
    name == "jan"@ || name == "feb"@ || name == "mar"@ || name == "apr"@ || name == "may"@ || name == "jun"@ || name
        == "jul"@ || name == "aug"@ || name == "sep"@ || name == "oct"@ || name == "nov"@ || name == "dec"@
}

/// Whether a macro is defined, in the file or as a month.
pub open spec fn defined(defs: Seq<NameFact>, name: Seq<char>) -> bool {
    is_month(name) || exists|j: int| 0 <= j < defs.len() && (#[trigger] defs[j]).name == name
}

// ---- building ------------------------------------------------------------------------------

fn fold_char(c: char) -> (r: char)
    ensures
        r == ascii_lower(c),
{
    if 'A' <= c && c <= 'Z' {
        let code: u8 = c as u8;
        assert(65 <= code <= 90);
        assert(code + 32 <= 122);
        (code + 32) as char
    } else {
        c
    }
}

/// Whether two texts are the same up to the case of ASCII letters.
fn eq_ignore_ascii_case(a: &str, b: &str) -> (r: bool)
    ensures
        r == same_name(a@, b@),
{
    let x = chars_of(a);
    let y = chars_of(b);
    if x.len() != y.len() {
        return false;
    }
    let mut i: usize = 0;
    while i < x.len()
        invariant
            x@ == a@,
            y@ == b@,
            x@.len() == y@.len(),
            i <= x.len(),
            forall|k: int| 0 <= k < i ==> ascii_lower(#[trigger] a@[k]) == ascii_lower(b@[k]),
        decreases x.len() - i,
    {
        if fold_char(x[i]) != fold_char(y[i]) {
            assert(ascii_lower(a@[i as int]) != ascii_lower(b@[i as int]));
            return false;
        }
        i = i + 1;
    }
    true
}

/// A text where it is not empty.
fn cleaned(text: &str) -> (r: Option<SmolStr>)
    ensures
        text_of(r) == filled(Some(text@)),
{
    if text.is_empty() {
        None
    } else {
        Some(small_string(text))
    }
}

/// Adds the macros that a value uses.
fn collect_value_uses(value: &RawValue, model: &mut Model)
    ensures
        final(model).entry_facts() == old(model).entry_facts(),
        final(model).def_facts() == old(model).def_facts(),
        final(model).use_facts() == old(model).use_facts() + value_uses(value.uses@, value.uses@.len() as int),
{
    let mut i: usize = 0;
    assert(model.use_facts() =~= old(model).use_facts() + value_uses(value.uses@, 0));
    while i < value.uses.len()
        invariant
            i <= value.uses.len(),
            model.entry_facts() == old(model).entry_facts(),
            model.def_facts() == old(model).def_facts(),
            model.use_facts() == old(model).use_facts() + value_uses(value.uses@, i as int),
        decreases value.uses.len() - i,
    {
        let folded = to_lowercase(value.uses[i].name.as_str());
        model.push_use(small_string(folded.as_str()), value.uses[i].range);
        assert(model.use_facts() =~= old(model).use_facts() + value_uses(value.uses@, i as int + 1));
        i = i + 1;
    }
}

/// Adds the macros that the fields use.
fn collect_uses(fields: &Vec<RawField>, model: &mut Model)
    ensures
        final(model).entry_facts() == old(model).entry_facts(),
        final(model).def_facts() == old(model).def_facts(),
        final(model).use_facts() == old(model).use_facts() + field_uses(fields@, fields@.len() as int),
{
    let mut i: usize = 0;
    assert(model.use_facts() =~= old(model).use_facts() + field_uses(fields@, 0));
    while i < fields.len()
        invariant
            i <= fields.len(),
            model.entry_facts() == old(model).entry_facts(),
            model.def_facts() == old(model).def_facts(),
            model.use_facts() == old(model).use_facts() + field_uses(fields@, i as int),
        decreases fields.len() - i,
    {
        let ghost before = model.use_facts();
        if let Some(value) = &fields[i].value {
            collect_value_uses(value, model);
        }
        assert(model.use_facts() =~= old(model).use_facts() + field_uses(fields@, i as int + 1));
        i = i + 1;
    }
}

/// What a slot of the first values holds: nothing yet, or the first value, if it is not empty.
spec fn slot(slot: Option<Option<SmolStr>>, first: Option<Seq<char>>) -> bool {
    match slot {
        Some(text) => first is Some && text_of(text) == filled(first),
        None => first is None,
    }
}

/// Adds an entry, where it has a key, and the macros that its values use. The first value of a
/// field counts, also where it is empty.
fn collect_entry(e: &RawEntry, model: &mut Model)
    ensures
        final(model).entry_facts() == (match e.key {
            Some(key) => old(model).entry_facts().push(entry_fact(*e, key)),
            None => old(model).entry_facts(),
        }),
        final(model).def_facts() == old(model).def_facts(),
        final(model).use_facts() == old(model).use_facts() + field_uses(e.fields@, e.fields@.len() as int),
{
    let mut title: Option<Option<SmolStr>> = None;
    let mut author: Option<Option<SmolStr>> = None;
    let mut editor: Option<Option<SmolStr>> = None;
    let mut i: usize = 0;
    assert(model.use_facts() =~= old(model).use_facts() + field_uses(e.fields@, 0));
    while i < e.fields.len()
        invariant
            i <= e.fields.len(),
            model.entry_facts() == old(model).entry_facts(),
            model.def_facts() == old(model).def_facts(),
            model.use_facts() == old(model).use_facts() + field_uses(e.fields@, i as int),
            e.key is Some ==> slot(title, first_value(e.fields@, i as int, "title"@)),
            e.key is Some ==> slot(author, first_value(e.fields@, i as int, "author"@)),
            e.key is Some ==> slot(editor, first_value(e.fields@, i as int, "editor"@)) || (author matches Some(a)
                && a is Some),
        decreases e.fields.len() - i,
    {
        let field = &e.fields[i];
        if let Some(value) = &field.value {
            collect_value_uses(value, model);
            let complete = title.is_some() && match &author {
                Some(found) => found.is_some(),
                None => false,
            };
            if e.key.is_some() && !complete {
                if let Some(name) = &field.name {
                    proof {
                        reveal_strlit("title");
                        reveal_strlit("author");
                        reveal_strlit("editor");
                        if same_name(name@, "title"@) && same_name(name@, "author"@) {
                            assert("title"@.len() == "author"@.len());
                        }
                        if same_name(name@, "title"@) && same_name(name@, "editor"@) {
                            assert("title"@.len() == "editor"@.len());
                        }
                        if same_name(name@, "author"@) && same_name(name@, "editor"@) {
                            assert(ascii_lower(name@[0]) == ascii_lower("author"@[0]));
                            assert(ascii_lower(name@[0]) == ascii_lower("editor"@[0]));
                        }
                    }
                    if eq_ignore_ascii_case(name.as_str(), "title") {
                        if title.is_none() {
                            title = Some(cleaned(value.cleaned.as_str()));
                        }
                    } else if eq_ignore_ascii_case(name.as_str(), "author") {
                        if author.is_none() {
                            author = Some(cleaned(value.cleaned.as_str()));
                        }
                    } else if eq_ignore_ascii_case(name.as_str(), "editor") {
                        if editor.is_none() {
                            editor = Some(cleaned(value.cleaned.as_str()));
                        }
                    }
                }
            }
        }
        assert(model.use_facts() =~= old(model).use_facts() + field_uses(e.fields@, i as int + 1));
        i = i + 1;
    }
    if let Some(key) = &e.key {
        let entry_type = match &e.entry_type {
            Some(name) => to_lowercase(name.as_str()),
            None => to_lowercase(String::new().as_str()),
        };
        let title = match title {
            Some(text) => text,
            None => None,
        };
        let author = match author {
            Some(text) => text,
            None => None,
        };
        let authors = match author {
            Some(text) => Some(text),
            None => match editor {
                Some(text) => text,
                None => None,
            },
        };
        model.push_entry(
            Entry {
                entry_type: small_string(entry_type.as_str()),
                key: small_string(key.text.as_str()),
                title,
                authors,
                key_range: key.range,
                range: e.range,
                duplicate: false,
            },
        );
    }
}

/// Adds a string definition and the macros that its value uses.
fn collect_string(s: &RawString, model: &mut Model)
    ensures
        final(model).entry_facts() == old(model).entry_facts(),
        final(model).def_facts() == (match s.name {
            Some(name) => old(model).def_facts().push(NameFact { name: lower(name.text@), range: name.range }),
            None => old(model).def_facts(),
        }),
        final(model).use_facts() == old(model).use_facts() + field_uses(s.fields@, s.fields@.len() as int),
{
    if let Some(name) = &s.name {
        let folded = to_lowercase(name.text.as_str());
        model.push_def(small_string(folded.as_str()), name.range);
    }
    collect_uses(&s.fields, model);
}

/// The names of the month macros.
fn month_macros() -> (r: StringHashSet)
    ensures
        forall|name: Seq<char>| #[trigger] r@.contains(name) <==> is_month(name),
{
    let mut names = StringHashSet::new();
    names.insert("jan".to_owned());
    names.insert("feb".to_owned());
    names.insert("mar".to_owned());
    names.insert("apr".to_owned());
    names.insert("may".to_owned());
    names.insert("jun".to_owned());
    names.insert("jul".to_owned());
    names.insert("aug".to_owned());
    names.insert("sep".to_owned());
    names.insert("oct".to_owned());
    names.insert("nov".to_owned());
    names.insert("dec".to_owned());
    names
}

/// The names of the macros that are defined, in the file or as a month.
fn defined_names(defs: &Vec<StringDef>) -> (r: StringHashSet)
    ensures
        forall|name: Seq<char>| #[trigger]
            r@.contains(name) <==> is_month(name) || exists|k: int|
                0 <= k < defs@.len() && small((#[trigger] defs@[k]).name) == name,
{
    let mut names = month_macros();
    let mut d: usize = 0;
    while d < defs.len()
        invariant
            d <= defs.len(),
            forall|name: Seq<char>| #[trigger]
                names@.contains(name) <==> is_month(name) || exists|k: int|
                    0 <= k < d && small((#[trigger] defs@[k]).name) == name,
        decreases defs.len() - d,
    {
        let ghost before = names@;
        names.insert(small_str(&defs[d].name).to_owned());
        assert forall|name: Seq<char>| #[trigger] names@.contains(name) <==> is_month(name) || exists|k: int|
            0 <= k < d + 1 && small((#[trigger] defs@[k]).name) == name by {
            assert(names@.contains(name) <==> before.contains(name) || name == small(defs@[d as int].name));
        }
        d = d + 1;
    }
    names
}

/// Marks the repeated keys and the macros that are defined.
fn resolve(model: &mut Model)
    requires
        forall|i: int| 0 <= i < old(model).entries@.len() ==> !(#[trigger] old(model).entries@[i]).duplicate,
    ensures
        final(model).entry_facts() == marked(old(model).entry_facts()),
        final(model).def_facts() == old(model).def_facts(),
        final(model).use_facts() == old(model).use_facts(),
        forall|i: int|
            0 <= i < final(model).string_uses@.len() ==> (#[trigger] final(model).string_uses@[i]).resolved == defined(
                final(model).def_facts(),
                small(final(model).string_uses@[i].name),
            ),
{
    let ghost facts = model.entry_facts();
    let ghost defs = model.def_facts();
    let ghost uses = model.use_facts();
    let mut seen = StringHashSet::new();
    let mut i: usize = 0;
    while i < model.entries.len()
        invariant
            i <= model.entries.len(),
            facts.len() == model.entries@.len(),
            model.string_defs == old(model).string_defs,
            model.string_uses == old(model).string_uses,
            forall|key: Seq<char>| #[trigger]
                seen@.contains(key) <==> exists|k: int| 0 <= k < i && lower(#[trigger] facts[k].key) == key,
            forall|k: int| 0 <= k < i ==> (#[trigger] model.entries@[k])@ == (EntryFact { duplicate: repeats(facts, k), ..facts[k] }),
            forall|k: int| i <= k < facts.len() ==> (#[trigger] model.entries@[k])@ == facts[k] && !facts[k].duplicate,
        decreases model.entries@.len() - i,
    {
        let key = to_lowercase(small_str(&model.entries[i].key));
        assert(key@ == lower(facts[i as int].key)) by {
            assert(model.entries@[i as int]@ == facts[i as int]);
        }
        let ghost before = seen@;
        let ghost folded = key@;
        if !seen.insert(key) {
            model.entries[i].duplicate = true;
        }
        assert forall|name: Seq<char>| #[trigger] seen@.contains(name) <==> exists|k: int|
            0 <= k < i + 1 && lower(#[trigger] facts[k].key) == name by {
            assert(seen@.contains(name) <==> before.contains(name) || name == folded);
            assert(lower(facts[i as int].key) == folded);
        }
        i = i + 1;
    }
    assert(model.entry_facts() =~= marked(facts));
    let known = defined_names(&model.string_defs);
    assert forall|name: Seq<char>| #[trigger] known@.contains(name) <==> defined(defs, name) by {
        assert forall|k: int| 0 <= k < defs.len() implies (#[trigger] defs[k]).name == small(model.string_defs@[k].name) by {}
        if defined(defs, name) && !is_month(name) {
            let k = choose|k: int| 0 <= k < defs.len() && (#[trigger] defs[k]).name == name;
            assert(small(model.string_defs@[k].name) == name);
        }
        if known@.contains(name) && !is_month(name) {
            let k = choose|k: int| 0 <= k < model.string_defs@.len() && small((#[trigger] model.string_defs@[k]).name) == name;
            assert(defs[k].name == name);
        }
    }
    let mut u: usize = 0;
    while u < model.string_uses.len()
        invariant
            u <= model.string_uses.len(),
            model.def_facts() == defs,
            model.entry_facts() == marked(facts),
            model.use_facts() == uses,
            forall|name: Seq<char>| #[trigger] known@.contains(name) <==> defined(defs, name),
            forall|k: int|
                0 <= k < u ==> (#[trigger] model.string_uses@[k]).resolved == defined(defs, small(model.string_uses@[k].name)),
        decreases model.string_uses@.len() - u,
    {
        let resolved = known.contains(small_str(&model.string_uses[u].name));
        let ghost before = *model;
        model.string_uses[u].resolved = resolved;
        proof {
            assert(model.use_facts() =~= before.use_facts());
            assert(model.def_facts() =~= before.def_facts());
            assert(model.entry_facts() =~= before.entry_facts());
        }
        u = u + 1;
    }
}

/// What a bibliography file defines and uses. Its items stand in the order of the file; nothing
/// inside an item counts as an item.
pub fn build(items: &Vec<BibItem>) -> (model: Model)
    ensures
        model.entry_facts() == marked(all_entries(items@, items@.len() as int)),
        model.def_facts() == all_defs(items@, items@.len() as int),
        model.use_facts() == all_uses(items@, items@.len() as int),
        forall|i: int|
            0 <= i < model.string_uses@.len() ==> (#[trigger] model.string_uses@[i]).resolved == defined(
                model.def_facts(),
                small(model.string_uses@[i].name),
            ),
{
    let mut model = Model::new();
    let mut i: usize = 0;
    while i < items.len()
        invariant
            i <= items.len(),
            model.entry_facts() == all_entries(items@, i as int),
            model.def_facts() == all_defs(items@, i as int),
            model.use_facts() == all_uses(items@, i as int),
        decreases items.len() - i,
    {
        match &items[i] {
            BibItem::Entry(e) => collect_entry(e, &mut model),
            BibItem::StringEntry(s) => collect_string(s, &mut model),
            BibItem::Other => {},
        }
        i = i + 1;
    }
    proof {
        lemma_unmarked(items@, items@.len() as int);
        assert forall|k: int| 0 <= k < model.entries@.len() implies !(#[trigger] model.entries@[k]).duplicate by {
            assert(model.entry_facts()[k] == model.entries@[k]@);
        }
    }
    resolve(&mut model);
    model
}

proof fn lemma_unmarked(items: Seq<BibItem>, n: int)
    requires
        n <= items.len(),
    ensures
        forall|i: int| 0 <= i < all_entries(items, n).len() ==> !(#[trigger] all_entries(items, n)[i]).duplicate,
    decreases n,
{
    if n > 0 {
        lemma_unmarked(items, n - 1);
    }
}

/// An entry is marked exactly when an earlier one has its key, in any letter case: the first entry
/// of a key is never marked.
pub proof fn first_entry_of_a_key_is_not_marked(entries: Seq<EntryFact>, i: int)
    requires
        0 <= i < entries.len(),
        forall|j: int| 0 <= j < i ==> lower(#[trigger] entries[j].key) != lower(entries[i].key),
    ensures
        !marked(entries)[i].duplicate,
        forall|k: int|
            i < k < entries.len() && lower(#[trigger] entries[k].key) == lower(entries[i].key) ==> marked(entries)[k].duplicate,
{
    assert forall|k: int| i < k < entries.len() && lower(#[trigger] entries[k].key) == lower(entries[i].key) implies marked(
        entries,
    )[k].duplicate by {
        assert(lower(entries[i].key) == lower(entries[k].key));
        assert(repeats(entries, k));
    }
}

/// Whether a macro is defined does not depend on where in the file its definition stands.
pub proof fn definitions_count_in_any_order(defs: Seq<NameFact>, other: Seq<NameFact>, name: Seq<char>)
    ensures
        defined(defs + other, name) == defined(other + defs, name),
        defined(defs + other, name) == (defined(defs, name) || defined(other, name)),
{
    if defined(defs, name) && !is_month(name) {
        let j = choose|j: int| 0 <= j < defs.len() && (#[trigger] defs[j]).name == name;
        assert((defs + other)[j].name == name);
        assert((other + defs)[other.len() + j].name == name);
    }
    if defined(other, name) && !is_month(name) {
        let j = choose|j: int| 0 <= j < other.len() && (#[trigger] other[j]).name == name;
        assert((defs + other)[defs.len() + j].name == name);
        assert((other + defs)[j].name == name);
    }
    if defined(defs + other, name) && !is_month(name) {
        let j = choose|j: int| 0 <= j < (defs + other).len() && (#[trigger] (defs + other)[j]).name == name;
        if j < defs.len() {
            assert(defs[j].name == name);
        } else {
            assert(other[j - defs.len()].name == name);
        }
    }
    if defined(other + defs, name) && !is_month(name) {
        let j = choose|j: int| 0 <= j < (other + defs).len() && (#[trigger] (other + defs)[j]).name == name;
        if j < other.len() {
            assert(other[j].name == name);
        } else {
            assert(defs[j - other.len()].name == name);
        }
    }
}

} // verus!

//! What a bibliography file is known to hold, item by item.

use vstd::prelude::*;

use crate::bib_model::{
    all_defs, all_entries, all_uses, defined, entry_fact, field_uses, first_value, marked, repeats,
    same_name, value_uses, BibItem, NameFact, RawEntry, RawField, RawName,
};
use crate::text::lower;

verus! {

/// Whether field `i` has a value under this name, in any case of its ASCII letters.
pub open spec fn gives(fields: Seq<RawField>, i: int, name: Seq<char>) -> bool {
    fields[i].name matches Some(own) && fields[i].value is Some && same_name(own@, name)
}

/// Whether field `i` is the first one that has a value under this name.
pub open spec fn gives_first(fields: Seq<RawField>, i: int, name: Seq<char>) -> bool {
    &&& 0 <= i < fields.len()
    &&& gives(fields, i, name)
    &&& forall|j: int| 0 <= j < i ==> !#[trigger] gives(fields, j, name)
}

proof fn lemma_first_value(fields: Seq<RawField>, n: int, name: Seq<char>)
    requires
        0 <= n <= fields.len(),
    ensures
        first_value(fields, n, name) is None <==> forall|j: int| 0 <= j < n ==> !#[trigger] gives(fields, j, name),
        forall|i: int|
            #[trigger] gives_first(fields, i, name) && i < n ==> first_value(fields, n, name) == Some(
                fields[i].value->0.cleaned@,
            ),
    decreases n,
{
    if n > 0 {
        lemma_first_value(fields, n - 1, name);
        if first_value(fields, n - 1, name) is None {
            assert forall|i: int| #[trigger] gives_first(fields, i, name) && i < n implies first_value(fields, n, name)
                == Some(fields[i].value->0.cleaned@) by {
                assert(i == n - 1) by {
                    if i < n - 1 {
                        assert(!gives(fields, i, name));
                    }
                }
            }
            assert(first_value(fields, n, name) is None <==> !gives(fields, n - 1, name));
        } else {
            assert(exists|j: int| 0 <= j < n - 1 && #[trigger] gives(fields, j, name));
            assert forall|i: int| #[trigger] gives_first(fields, i, name) && i < n implies first_value(fields, n, name)
                == Some(fields[i].value->0.cleaned@) by {
                let j = choose|j: int| 0 <= j < n - 1 && #[trigger] gives(fields, j, name);
                if i == n - 1 {
                    assert(!gives(fields, j, name));
                }
            }
        }
    }
}

/// The title of an entry is the value of its first field of that name, and there is none where
/// that value is empty or no field has one.
pub proof fn the_first_title_counts(e: RawEntry, key: RawName, i: int)
    ensures
        gives_first(e.fields@, i, "title"@) && e.fields@[i].value->0.cleaned@.len() > 0 ==> entry_fact(e, key).title
            == Some(e.fields@[i].value->0.cleaned@),
        gives_first(e.fields@, i, "title"@) && e.fields@[i].value->0.cleaned@.len() == 0 ==> entry_fact(e, key).title is None,
        (forall|j: int| 0 <= j < e.fields@.len() ==> !#[trigger] gives(e.fields@, j, "title"@)) ==> entry_fact(
            e,
            key,
        ).title is None,
{
    lemma_first_value(e.fields@, e.fields@.len() as int, "title"@);
}

/// The authors of an entry are the value of its first author field. Where that is empty or
/// missing, they are the value of its first editor field, if that is not empty.
pub proof fn editors_stand_in_for_authors(e: RawEntry, key: RawName, a: int, b: int)
    ensures
        gives_first(e.fields@, a, "author"@) && e.fields@[a].value->0.cleaned@.len() > 0 ==> entry_fact(e, key).authors
            == Some(e.fields@[a].value->0.cleaned@),
        ((gives_first(e.fields@, a, "author"@) && e.fields@[a].value->0.cleaned@.len() == 0) || (forall|j: int|
            0 <= j < e.fields@.len() ==> !#[trigger] gives(e.fields@, j, "author"@))) && gives_first(
            e.fields@,
            b,
            "editor"@,
        ) ==> entry_fact(e, key).authors == (if e.fields@[b].value->0.cleaned@.len() > 0 {
            Some(e.fields@[b].value->0.cleaned@)
        } else {
            None
        }),
{
    lemma_first_value(e.fields@, e.fields@.len() as int, "author"@);
    lemma_first_value(e.fields@, e.fields@.len() as int, "editor"@);
}

/// The key of an entry is kept as it stands, and its type in lower case.
pub proof fn an_entry_keeps_its_key(e: RawEntry, key: RawName)
    ensures
        entry_fact(e, key).key == key.text@,
        entry_fact(e, key).key_range == key.range,
        entry_fact(e, key).range == e.range,
        e.entry_type matches Some(kind) ==> entry_fact(e, key).entry_type == lower(kind@),
{
}

/// Whether an item is an entry with a key.
pub open spec fn keyed(item: BibItem) -> bool {
    item matches BibItem::Entry(e) && e.key is Some
}

/// How many of the first `n` items are entries with a key.
pub open spec fn keyed_count(items: Seq<BibItem>, n: int) -> nat
    decreases n,
{
    if n <= 0 {
        0
    } else if keyed(items[n - 1]) {
        keyed_count(items, n - 1) + 1
    } else {
        keyed_count(items, n - 1)
    }
}

proof fn lemma_entries(items: Seq<BibItem>, n: int, i: int)
    requires
        0 <= n <= items.len(),
    ensures
        all_entries(items, n).len() == keyed_count(items, n),
        0 <= i < n && keyed(items[i]) ==> keyed_count(items, i) < keyed_count(items, n) && all_entries(
            items,
            n,
        )[keyed_count(items, i) as int] == entry_fact(items[i]->Entry_0, items[i]->Entry_0.key->0),
    decreases n,
{
    if n > 0 {
        lemma_entries(items, n - 1, i);
        lemma_entries(items, n - 1, n - 1);
    }
}

/// Every entry with a key is recorded, once and in the order of the file, and nothing else is. It
/// is marked exactly where an entry before it has the same key in any letter case.
pub proof fn every_keyed_entry_is_recorded(items: Seq<BibItem>, i: int)
    requires
        0 <= i < items.len(),
        keyed(items[i]),
    ensures
        ({
            let all = marked(all_entries(items, items.len() as int));
            let at = keyed_count(items, i) as int;
            let e = items[i]->Entry_0;
            let key = e.key->0;
            &&& all.len() == keyed_count(items, items.len() as int)
            &&& at < all.len()
            &&& all[at].key == key.text@
            &&& all[at].key_range == key.range
            &&& all[at].range == e.range
            &&& all[at].title == entry_fact(e, key).title
            &&& all[at].authors == entry_fact(e, key).authors
            &&& all[at].duplicate <==> exists|j: int| 0 <= j < at && lower((#[trigger] all[j]).key) == lower(key.text@)
        }),
{
    let n = items.len() as int;
    let plain = all_entries(items, n);
    let all = marked(plain);
    let at = keyed_count(items, i) as int;
    lemma_entries(items, n, i);
    assert(plain[at] == entry_fact(items[i]->Entry_0, items[i]->Entry_0.key->0));
    if repeats(plain, at) {
        let j = choose|j: int| 0 <= j < at && lower(#[trigger] plain[j].key) == lower(plain[at].key);
        assert(lower(all[j].key) == lower(all[at].key));
    }
    if exists|j: int| 0 <= j < at && lower((#[trigger] all[j]).key) == lower(all[at].key) {
        let j = choose|j: int| 0 <= j < at && lower((#[trigger] all[j]).key) == lower(all[at].key);
        assert(lower(plain[j].key) == lower(plain[at].key));
    }
}

proof fn lemma_defs(items: Seq<BibItem>, n: int, i: int)
    requires
        0 <= n <= items.len(),
    ensures
        0 <= i < n && items[i] is StringEntry && items[i]->StringEntry_0.name is Some ==> exists|k: int|
            0 <= k < all_defs(items, n).len() && #[trigger] all_defs(items, n)[k] == (NameFact {
                name: lower(items[i]->StringEntry_0.name->0.text@),
                range: items[i]->StringEntry_0.name->0.range,
            }),
    decreases n,
{
    if n > 0 {
        lemma_defs(items, n - 1, i);
        let before = all_defs(items, n - 1);
        let after = all_defs(items, n);
        if 0 <= i < n && items[i] is StringEntry && items[i]->StringEntry_0.name is Some {
            let fact = NameFact {
                name: lower(items[i]->StringEntry_0.name->0.text@),
                range: items[i]->StringEntry_0.name->0.range,
            };
            if i == n - 1 {
                assert(after[before.len() as int] == fact);
            } else {
                let k = choose|k: int| 0 <= k < before.len() && #[trigger] before[k] == fact;
                assert(after[k] == fact);
            }
        }
    }
}

/// A macro that the file defines anywhere is resolved, and so is a month. Letter case does not
/// count in the name of a definition.
pub proof fn definitions_anywhere_resolve_a_macro(items: Seq<BibItem>, i: int, name: Seq<char>)
    ensures
        0 <= i < items.len() && items[i] is StringEntry && items[i]->StringEntry_0.name is Some && lower(
            items[i]->StringEntry_0.name->0.text@,
        ) == name ==> defined(all_defs(items, items.len() as int), name),
        name == "jan"@ || name == "feb"@ || name == "mar"@ || name == "apr"@ || name == "may"@ || name == "jun"@ || name
            == "jul"@ || name == "aug"@ || name == "sep"@ || name == "oct"@ || name == "nov"@ || name == "dec"@ ==> defined(
            all_defs(items, items.len() as int),
            name,
        ),
{
    lemma_defs(items, items.len() as int, i);
}

proof fn lemma_value_uses(fields: Seq<RawField>, f: int, n: int, u: int)
    requires
        0 <= f < fields.len(),
        fields[f].value is Some,
        0 <= u < n <= fields[f].value->0.uses@.len(),
    ensures
        value_uses(fields[f].value->0.uses@, n).len() == n,
        value_uses(fields[f].value->0.uses@, n)[u] == (NameFact {
            name: lower(fields[f].value->0.uses@[u].name@),
            range: fields[f].value->0.uses@[u].range,
        }),
    decreases n,
{
    if u < n - 1 {
        lemma_value_uses(fields, f, n - 1, u);
    } else {
        lemma_value_uses_len(fields, f, n - 1);
    }
}

proof fn lemma_value_uses_len(fields: Seq<RawField>, f: int, n: int)
    requires
        0 <= f < fields.len(),
        fields[f].value is Some,
        0 <= n <= fields[f].value->0.uses@.len(),
    ensures
        value_uses(fields[f].value->0.uses@, n).len() == n,
    decreases n,
{
    if n > 0 {
        lemma_value_uses_len(fields, f, n - 1);
    }
}

/// Every macro that a field uses is recorded, by its name in lower case and its place.
pub proof fn every_use_of_a_macro_is_recorded(fields: Seq<RawField>, n: int, f: int, u: int)
    requires
        0 <= f < n <= fields.len(),
        fields[f].value is Some,
        0 <= u < fields[f].value->0.uses@.len(),
    ensures
        exists|k: int|
            0 <= k < field_uses(fields, n).len() && #[trigger] field_uses(fields, n)[k] == (NameFact {
                name: lower(fields[f].value->0.uses@[u].name@),
                range: fields[f].value->0.uses@[u].range,
            }),
    decreases n,
{
    let fact = NameFact {
        name: lower(fields[f].value->0.uses@[u].name@),
        range: fields[f].value->0.uses@[u].range,
    };
    let before = field_uses(fields, n - 1);
    let after = field_uses(fields, n);
    if f == n - 1 {
        let uses = fields[f].value->0.uses@;
        lemma_value_uses(fields, f, uses.len() as int, u);
        assert(after[before.len() + u] == fact);
    } else {
        every_use_of_a_macro_is_recorded(fields, n - 1, f, u);
        let k = choose|k: int| 0 <= k < before.len() && #[trigger] before[k] == fact;
        assert(after[k] == fact);
    }
}

/// The uses that one item makes are among those of the file.
pub proof fn uses_of_an_item_are_uses_of_the_file(items: Seq<BibItem>, n: int, i: int, fact: NameFact)
    requires
        0 <= i < n <= items.len(),
        items[i] matches BibItem::Entry(e) ==> field_uses(e.fields@, e.fields@.len() as int).contains(fact),
        items[i] matches BibItem::StringEntry(s) ==> field_uses(s.fields@, s.fields@.len() as int).contains(fact),
        !(items[i] is Other),
    ensures
        all_uses(items, n).contains(fact),
    decreases n,
{
    let before = all_uses(items, n - 1);
    let after = all_uses(items, n);
    if i == n - 1 {
        let own = match items[i] {
            BibItem::Entry(e) => field_uses(e.fields@, e.fields@.len() as int),
            BibItem::StringEntry(s) => field_uses(s.fields@, s.fields@.len() as int),
            BibItem::Other => Seq::empty(),
        };
        let k = choose|k: int| 0 <= k < own.len() && own[k] == fact;
        assert(after[before.len() + k] == fact);
    } else {
        uses_of_an_item_are_uses_of_the_file(items, n - 1, i, fact);
        let k = choose|k: int| 0 <= k < before.len() && before[k] == fact;
        assert(after[k] == fact);
    }
}

} // verus!

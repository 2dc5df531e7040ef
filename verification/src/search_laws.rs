//! What holds of the search index.

use vstd::prelude::*;
use crate::json::{comma_list, json_chars, json_object, json_string, member_json, object_json};
use crate::names::kind_of;
use crate::search::{
    all_items, doc_entries, entry_members, entry_views, first_href, page_entries, rows_of, search_index, search_script,
    SearchEntry, SearchEntryView,
};
use crate::types::{NavItemView, NavModelView, PageView};

verus! {

/// The search index begins with one entry for each type, then each module, then
/// each global, with its name and its page. The kind of a type is read off its
/// name.
pub proof fn law_every_page_can_be_searched_for(nav: NavModelView, pages: Seq<PageView>, i: int)
    ensures
        search_index(nav, Seq::empty()).len() == nav.types.len() + nav.modules.len() + nav.globals.len(),
        search_index(nav, pages).len() >= search_index(nav, Seq::empty()).len(),
        0 <= i < nav.types.len() ==> {
            let entry = search_index(nav, pages)[i];
            entry.name == nav.types[i].name && entry.href == nav.types[i].href && entry.kind == kind_of(
                nav.types[i].name,
            )
        },
        0 <= i < nav.modules.len() ==> {
            let entry = search_index(nav, pages)[nav.types.len() + i];
            entry.name == nav.modules[i].name && entry.href == nav.modules[i].href && entry.kind == seq![
                'm',
                'o',
                'd',
                'u',
                'l',
                'e',
            ]
        },
        0 <= i < nav.globals.len() ==> {
            let entry = search_index(nav, pages)[nav.types.len() + nav.modules.len() + i];
            entry.name == nav.globals[i].name && entry.href == nav.globals[i].href && entry.kind == seq![
                'g',
                'l',
                'o',
                'b',
                'a',
                'l',
            ]
        },
{
    reveal_strlit("module");
    reveal_strlit("global");
    assert("module"@ =~= seq!['m', 'o', 'd', 'u', 'l', 'e']);
    assert("global"@ =~= seq!['g', 'l', 'o', 'b', 'a', 'l']);
    assert(search_index(nav, Seq::empty()) =~= page_entries(nav));
}

/// Whether the entry at `i`, of types, modules and globals in this order, is the
/// first with the given short name.
pub open spec fn is_first_of_name(nav: NavModelView, name: Seq<char>, i: int) -> bool {
    let items = nav.types + nav.modules + nav.globals;
    &&& 0 <= i < items.len()
    &&& items[i].short_name == name
    &&& forall|j: int| 0 <= j < i ==> (#[trigger] items[j]).short_name != name
}

/// A name leads to the page of the first entry that has it for its short name.
pub proof fn law_names_lead_to_the_first_entry(nav: NavModelView, name: Seq<char>, i: int)
    requires
        is_first_of_name(nav, name, i),
    ensures
        first_href(all_items(nav), name) == (nav.types + nav.modules + nav.globals)[i].href,
{
    lemma_first_href_at(nav.types + nav.modules + nav.globals, name, i);
}

proof fn lemma_first_href_at(items: Seq<NavItemView>, name: Seq<char>, i: int)
    requires
        0 <= i < items.len(),
        items[i].short_name == name,
        forall|j: int| 0 <= j < i ==> (#[trigger] items[j]).short_name != name,
    ensures
        first_href(items, name) == items[i].href,
    decreases items.len(),
{
    if i > 0 {
        assert(items[0].short_name != name);
        let rest = items.drop_first();
        assert forall|j: int| 0 <= j < i - 1 implies (#[trigger] rest[j]).short_name != name by {
            assert(items[j + 1].short_name != name);
        }
        lemma_first_href_at(rest, name, i - 1);
    }
}

/// A name that no entry has for its short name leads nowhere.
pub proof fn law_other_names_lead_nowhere(nav: NavModelView, name: Seq<char>)
    requires
        forall|j: int|
            0 <= j < (nav.types + nav.modules + nav.globals).len() ==> (#[trigger] (nav.types + nav.modules
                + nav.globals)[j]).short_name != name,
    ensures
        first_href(all_items(nav), name).len() == 0,
{
    lemma_first_href_none(nav.types + nav.modules + nav.globals, name);
}

proof fn lemma_first_href_none(items: Seq<NavItemView>, name: Seq<char>)
    requires
        forall|j: int| 0 <= j < items.len() ==> (#[trigger] items[j]).short_name != name,
    ensures
        first_href(items, name).len() == 0,
    decreases items.len(),
{
    if items.len() > 0 {
        assert(items[0].short_name != name);
        let rest = items.drop_first();
        assert forall|j: int| 0 <= j < rest.len() implies (#[trigger] rest[j]).short_name != name by {
            assert(items[j + 1].short_name != name);
        }
        lemma_first_href_none(rest, name);
    }
}

/// Whether `entries` holds, from `start` on, an entry for each field and then for
/// each method of the page: under its own name, with a link to its own anchor on
/// the page at `base`.
pub open spec fn members_stand_at(
    entries: Seq<SearchEntryView>,
    start: int,
    page: PageView,
    base: Seq<char>,
) -> bool {
    let (fields, methods) = (page.doc.fields, page.doc.methods);
    &&& start + fields.len() + methods.len() <= entries.len()
    &&& forall|k: int|
        0 <= k < fields.len() ==> entries[start + k] == (SearchEntryView {
            name: (#[trigger] fields[k]).name,
            href: base + seq!['#'] + fields[k].short_name,
            kind: seq!['f', 'i', 'e', 'l', 'd'],
        })
    &&& forall|k: int|
        0 <= k < methods.len() ==> entries[start + fields.len() + k] == (SearchEntryView {
            name: (#[trigger] methods[k]).name,
            href: base + seq!['#'] + methods[k].short_name,
            kind: seq!['f', 'u', 'n', 'c', 't', 'i', 'o', 'n'],
        })
}

/// A further page adds to the end of the search index the entries of its fields,
/// then those of its methods, and nothing else. They link to the page of the first
/// entry of the navigation that has the name of the page for its short name.
pub proof fn law_members_of_a_page_are_added(nav: NavModelView, pages: Seq<PageView>, page: PageView, i: int)
    requires
        is_first_of_name(nav, page.doc.name, i),
        (nav.types + nav.modules + nav.globals)[i].href.len() > 0,
    ensures
        ({
            let before = search_index(nav, pages);
            let after = search_index(nav, pages.push(page));
            &&& after.len() == before.len() + page.doc.fields.len() + page.doc.methods.len()
            &&& after.take(before.len() as int) == before
            &&& members_stand_at(
                after,
                before.len() as int,
                page,
                (nav.types + nav.modules + nav.globals)[i].href,
            )
        }),
{
    reveal_strlit("#");
    reveal_strlit("field");
    reveal_strlit("function");
    assert("#"@ =~= seq!['#']);
    assert("field"@ =~= seq!['f', 'i', 'e', 'l', 'd']);
    assert("function"@ =~= seq!['f', 'u', 'n', 'c', 't', 'i', 'o', 'n']);
    let before = search_index(nav, pages);
    let after = search_index(nav, pages.push(page));
    law_names_lead_to_the_first_entry(nav, page.doc.name, i);
    assert(pages.push(page).drop_last() =~= pages);
    assert(after =~= before + doc_entries(nav, page.doc));
    assert(after.take(before.len() as int) =~= before);
}

/// A page that the navigation does not list, or lists without a link, adds nothing.
pub proof fn law_unlisted_pages_add_nothing(nav: NavModelView, pages: Seq<PageView>, page: PageView)
    requires
        forall|i: int|
            #![trigger is_first_of_name(nav, page.doc.name, i)]
            is_first_of_name(nav, page.doc.name, i) ==> (nav.types + nav.modules + nav.globals)[i].href.len() == 0,
    ensures
        search_index(nav, pages.push(page)) == search_index(nav, pages),
{
    let items = nav.types + nav.modules + nav.globals;
    let name = page.doc.name;
    if exists|j: int| 0 <= j < items.len() && (#[trigger] items[j]).short_name == name {
        let j = choose|j: int| 0 <= j < items.len() && (#[trigger] items[j]).short_name == name;
        let i = lemma_first_exists(items, name, j);
        assert(is_first_of_name(nav, name, i));
        law_names_lead_to_the_first_entry(nav, name, i);
    } else {
        law_other_names_lead_nowhere(nav, name);
    }
    assert(pages.push(page).drop_last() =~= pages);
    assert(search_index(nav, pages.push(page)) =~= search_index(nav, pages));
}

proof fn lemma_first_exists(items: Seq<NavItemView>, name: Seq<char>, j: int) -> (i: int)
    requires
        0 <= j < items.len(),
        items[j].short_name == name,
    ensures
        0 <= i <= j,
        items[i].short_name == name,
        forall|k: int| 0 <= k < i ==> (#[trigger] items[k]).short_name != name,
    decreases j,
{
    if exists|k: int| 0 <= k < j && (#[trigger] items[k]).short_name == name {
        let k = choose|k: int| 0 <= k < j && (#[trigger] items[k]).short_name == name;
        lemma_first_exists(items, name, k)
    } else {
        j
    }
}

/// Every member of every page is in the search index: the entries of the page at
/// `p` stand where those of the pages before it end.
pub proof fn law_every_member_can_be_searched_for(nav: NavModelView, pages: Seq<PageView>, p: int, i: int)
    requires
        0 <= p < pages.len(),
        is_first_of_name(nav, pages[p].doc.name, i),
        (nav.types + nav.modules + nav.globals)[i].href.len() > 0,
    ensures
        members_stand_at(
            search_index(nav, pages),
            search_index(nav, pages.take(p)).len() as int,
            pages[p],
            (nav.types + nav.modules + nav.globals)[i].href,
        ),
    decreases pages.len(),
{
    let base = (nav.types + nav.modules + nav.globals)[i].href;
    let last = pages.len() - 1;
    let front = pages.drop_last();
    let start = search_index(nav, pages.take(p)).len() as int;
    if p == last {
        assert(front.push(pages[p]) =~= pages);
        assert(pages.take(p) =~= front);
        law_members_of_a_page_are_added(nav, front, pages[p], i);
    } else {
        law_every_member_can_be_searched_for(nav, front, p, i);
        assert(front.take(p) =~= pages.take(p));
        let (short, long) = (search_index(nav, front), search_index(nav, pages));
        assert(long =~= short + doc_entries(nav, pages.last().doc));
        let (fields, methods) = (pages[p].doc.fields, pages[p].doc.methods);
        assert forall|k: int| 0 <= k < fields.len() implies long[start + k] == (SearchEntryView {
            name: (#[trigger] fields[k]).name,
            href: base + seq!['#'] + fields[k].short_name,
            kind: seq!['f', 'i', 'e', 'l', 'd'],
        }) by {
            assert(short[start + k] == long[start + k]);
        }
        assert forall|k: int| 0 <= k < methods.len() implies long[start + fields.len() + k] == (SearchEntryView {
            name: (#[trigger] methods[k]).name,
            href: base + seq!['#'] + methods[k].short_name,
            kind: seq!['f', 'u', 'n', 'c', 't', 'i', 'o', 'n'],
        }) by {
            assert(short[start + fields.len() + k] == long[start + fields.len() + k]);
        }
    }
}

/// A search entry as JSON.
pub open spec fn entry_json(entry: SearchEntryView) -> Seq<char> {
    "{\"href\":"@ + json_string(entry.href) + ",\"kind\":"@ + json_string(entry.kind) + ",\"name\":"@ + json_string(
        entry.name,
    ) + "}"@
}

/// Whether the script sets the search index to an array with the given contents.
pub open spec fn is_script_of(script: Seq<char>, contents: Seq<char>) -> bool {
    script == "window.SEARCH_INDEX = ["@ + contents + "];"@
}

/// The script sets the search index to an array. It is empty without entries, and a
/// further entry adds its page, its kind and its name as an object at the end, with
/// a comma before it unless it is the first.
pub proof fn law_script_lists_the_entries(entries: Seq<SearchEntryView>, entry: SearchEntryView) -> (contents: (
    Seq<char>,
    Seq<char>,
))
    ensures
        is_script_of(search_script(entries), contents.0),
        is_script_of(search_script(entries.push(entry)), contents.1),
        entries.len() == 0 ==> contents.0.len() == 0,
        entries.len() == 0 ==> contents.1 == entry_json(entry),
        entries.len() > 0 ==> contents.1 == contents.0 + seq![','] + entry_json(entry),
{
    reveal_strlit("window.SEARCH_INDEX = [");
    reveal_strlit("window.SEARCH_INDEX = ");
    reveal_strlit("];");
    reveal_strlit(";");
    let f = object_json();
    let before = rows_of(entries).map_values(f);
    let after = rows_of(entries.push(entry)).map_values(f);
    let last = json_object(entry_members(entry));
    lemma_entry_json(entry);
    assert(after =~= before.push(last));
    lemma_comma_list_push(before, last);
    let (a, b) = (comma_list(before), comma_list(after));
    assert("window.SEARCH_INDEX = ["@ =~= "window.SEARCH_INDEX = "@ + seq!['[']);
    assert("];"@ =~= seq![']'] + ";"@);
    assert(search_script(entries) =~= "window.SEARCH_INDEX = ["@ + a + "];"@);
    assert(search_script(entries.push(entry)) =~= "window.SEARCH_INDEX = ["@ + b + "];"@);
    (a, b)
}

proof fn lemma_comma_list_push(parts: Seq<Seq<char>>, part: Seq<char>)
    ensures
        parts.len() == 0 ==> comma_list(parts).len() == 0 && comma_list(parts.push(part)) == part,
        parts.len() > 0 ==> comma_list(parts.push(part)) == comma_list(parts) + seq![','] + part,
    decreases parts.len(),
{
    let all = parts.push(part);
    if parts.len() == 1 {
        assert(all.drop_first() =~= seq![part]);
        assert(comma_list(seq![part]) == part);
    } else if parts.len() > 1 {
        assert(all.drop_first() =~= parts.drop_first().push(part));
        lemma_comma_list_push(parts.drop_first(), part);
        assert(comma_list(all) =~= comma_list(parts) + seq![','] + part);
    }
}

proof fn lemma_entry_json(entry: SearchEntryView)
    ensures
        json_object(entry_members(entry)) == entry_json(entry),
{
    reveal_strlit("{\"href\":");
    reveal_strlit(",\"kind\":");
    reveal_strlit(",\"name\":");
    reveal_strlit("}");
    reveal_strlit("href");
    reveal_strlit("kind");
    reveal_strlit("name");
    let members = entry_members(entry);
    let texts = members.map_values(member_json());
    lemma_plain_word("href"@);
    lemma_plain_word("kind"@);
    lemma_plain_word("name"@);
    let (h, k, n) = (texts[0], texts[1], texts[2]);
    assert(texts =~= seq![h, k, n]);
    assert(texts.drop_first() =~= seq![k, n]);
    assert(texts.drop_first().drop_first() =~= seq![n]);
    assert(comma_list(seq![n]) == n);
    assert(comma_list(seq![k, n]) == k + seq![','] + n);
    assert(comma_list(texts) == h + seq![','] + (k + seq![','] + n));
    assert("{\"href\":"@ =~= seq!['{'] + json_string("href"@) + seq![':']);
    assert(",\"kind\":"@ =~= seq![','] + json_string("kind"@) + seq![':']);
    assert(",\"name\":"@ =~= seq![','] + json_string("name"@) + seq![':']);
    assert("}"@ =~= seq!['}']);
    assert(json_object(members) =~= entry_json(entry));
}

proof fn lemma_plain_word(word: Seq<char>)
    requires
        word.len() == 4,
        forall|i: int| 0 <= i < 4 ==> 97 <= #[trigger] word[i] as int <= 122,
    ensures
        json_string(word) == seq!['"', word[0], word[1], word[2], word[3], '"'],
{
    let w1 = word.drop_first();
    let w2 = w1.drop_first();
    let w3 = w2.drop_first();
    let w4 = w3.drop_first();
    assert(w1[0] == word[1] && w2[0] == word[2] && w3[0] == word[3]);
    assert(json_chars(w4).len() == 0);
    assert(json_chars(w3) =~= seq![word[3]]);
    assert(json_chars(w2) =~= seq![word[2], word[3]]);
    assert(json_chars(w1) =~= seq![word[1], word[2], word[3]]);
    assert(json_chars(word) =~= seq![word[0], word[1], word[2], word[3]]);
    assert(json_string(word) =~= seq!['"', word[0], word[1], word[2], word[3], '"']);
}

/// The models of search entries keep all that they say, in their order.
pub proof fn law_entry_models_are_faithful(entries: Seq<SearchEntry>)
    ensures
        entry_views(entries).len() == entries.len(),
        forall|i: int|
            0 <= i < entries.len() ==> (#[trigger] entry_views(entries)[i]).name == entries[i].name@ && entry_views(
                entries,
            )[i].href == entries[i].href@ && entry_views(entries)[i].kind == entries[i].kind@,
{
}

} // verus!

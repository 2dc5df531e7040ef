//! The search index of a site.

use vstd::prelude::*;
use crate::json::{json_array, law_json_array_tells_apart, keys_ascend, member_texts, row_texts, to_json};
use crate::names::{kind_of, type_kind};
use crate::text::{same_text, text_le};
use crate::types::{
    item_views, member_views, page_views, DocMember, DocMemberView, HtmlDocView, NavItem, NavItemView, NavModel,
    NavModelView, Page, PageView,
};

verus! {

/// Something that can be searched for.
#[derive(Debug, PartialEq, Eq)]
pub struct SearchEntry {
    pub name: String,
    pub href: String,
    pub kind: String,
}

/// The model of a `SearchEntry`.
#[verifier::ext_equal]
pub struct SearchEntryView {
    pub name: Seq<char>,
    pub href: Seq<char>,
    pub kind: Seq<char>,
}

impl View for SearchEntry {
    type V = SearchEntryView;

    open spec fn view(&self) -> SearchEntryView {
        SearchEntryView { name: self.name@, href: self.href@, kind: self.kind@ }
    }
}

/// The models of search entries.
pub open spec fn entry_views(entries: Seq<SearchEntry>) -> Seq<SearchEntryView> {
    entries.map_values(|entry: SearchEntry| entry@)
}

/// Why there is no search index.
#[derive(Clone, Copy, Debug, PartialEq, Eq, Structural)]
pub enum SearchError {
    /// The entries cannot be written as JSON.
    Json,
}

/// The search entry of a type.
pub open spec fn type_entry(item: NavItemView) -> SearchEntryView {
    SearchEntryView { name: item.name, href: item.href, kind: kind_of(item.name) }
}

/// The search entry of a module or a global.
pub open spec fn plain_entry(item: NavItemView, kind: Seq<char>) -> SearchEntryView {
    SearchEntryView { name: item.name, href: item.href, kind }
}

/// The search entries of the pages that the navigation lists.
pub open spec fn page_entries(nav: NavModelView) -> Seq<SearchEntryView> {
    nav.types.map_values(|item: NavItemView| type_entry(item)) + nav.modules.map_values(
        |item: NavItemView| plain_entry(item, "module"@),
    ) + nav.globals.map_values(|item: NavItemView| plain_entry(item, "global"@))
}

/// The entries of the navigation: types, modules, globals.
pub open spec fn all_items(nav: NavModelView) -> Seq<NavItemView> {
    nav.types + nav.modules + nav.globals
}

/// The page of the first entry with the given short name; nothing where there is
/// none.
pub open spec fn first_href(items: Seq<NavItemView>, name: Seq<char>) -> Seq<char>
    decreases items.len(),
{
    if items.len() == 0 {
        Seq::empty()
    } else if items[0].short_name == name {
        items[0].href
    } else {
        first_href(items.drop_first(), name)
    }
}

/// The search entry of a member of the page `base`.
pub open spec fn member_entry(base: Seq<char>, member: DocMemberView, kind: Seq<char>) -> SearchEntryView {
    SearchEntryView { name: member.name, href: base + "#"@ + member.short_name, kind }
}

/// The search entries of the members of a page; none where the navigation does
/// not list the page.
pub open spec fn doc_entries(nav: NavModelView, doc: HtmlDocView) -> Seq<SearchEntryView> {
    let base = first_href(all_items(nav), doc.name);
    if base.len() == 0 {
        Seq::empty()
    } else {
        doc.fields.map_values(|m: DocMemberView| member_entry(base, m, "field"@)) + doc.methods.map_values(
            |m: DocMemberView| member_entry(base, m, "function"@),
        )
    }
}

/// The search entries of the members of pages.
pub open spec fn member_entries(nav: NavModelView, pages: Seq<PageView>) -> Seq<SearchEntryView>
    decreases pages.len(),
{
    if pages.len() == 0 {
        Seq::empty()
    } else {
        member_entries(nav, pages.drop_last()) + doc_entries(nav, pages.last().doc)
    }
}

/// All that can be searched for: the pages, then the members of each page.
pub open spec fn search_index(nav: NavModelView, pages: Seq<PageView>) -> Seq<SearchEntryView> {
    page_entries(nav) + member_entries(nav, pages)
}

/// Computes `search_index`.
pub fn search_entries(nav: &NavModel, pages: &Vec<Page>) -> (entries: Vec<SearchEntry>)
    ensures
        entry_views(entries@) == search_index(nav@, page_views(pages@)),
{
    let mut entries: Vec<SearchEntry> = Vec::new();
    add_types(&mut entries, &nav.types);
    add_plain(&mut entries, &nav.modules, "module");
    add_plain(&mut entries, &nav.globals, "global");
    assert(entry_views(entries@) =~= page_entries(nav@));
    let ghost start = entry_views(entries@);
    let mut i: usize = 0;
    assert(page_views(pages@).take(0) =~= Seq::empty());
    while i < pages.len()
        invariant
            i <= pages.len(),
            entry_views(entries@) == start + member_entries(nav@, page_views(pages@).take(i as int)),
        decreases pages.len() - i,
    {
        let ghost before = entry_views(entries@);
        let page = &pages[i];
        let base = find_href(nav, page.doc.name.as_str());
        if base.as_str().unicode_len() > 0 {
            add_members(&mut entries, base.as_str(), &page.doc.fields, "field");
            add_members(&mut entries, base.as_str(), &page.doc.methods, "function");
        }
        proof {
            let views = page_views(pages@);
            assert(views.take(i + 1).drop_last() =~= views.take(i as int));
            assert(views.take(i + 1).last() == page@);
            assert(entry_views(entries@) =~= before + doc_entries(nav@, page.doc@));
        }
        i = i + 1;
    }
    assert(page_views(pages@).take(i as int) =~= page_views(pages@));
    entries
}

fn add_types(entries: &mut Vec<SearchEntry>, items: &Vec<NavItem>)
    ensures
        entry_views(final(entries)@) == entry_views(old(entries)@) + item_views(items@).map_values(
            |item: NavItemView| type_entry(item),
        ),
{
    let ghost start = entry_views(entries@);
    let ghost added = item_views(items@).map_values(|item: NavItemView| type_entry(item));
    let mut i: usize = 0;
    assert(entry_views(entries@) =~= start + added.take(0));
    while i < items.len()
        invariant
            i <= items.len(),
            added == item_views(items@).map_values(|item: NavItemView| type_entry(item)),
            entry_views(entries@) == start + added.take(i as int),
        decreases items.len() - i,
    {
        let item = &items[i];
        let ghost before = entries@;
        entries.push(
            SearchEntry {
                name: item.name.clone(),
                href: item.href.clone(),
                kind: type_kind(item.name.as_str()).to_string(),
            },
        );
        proof {
            assert(entry_views(entries@) =~= entry_views(before).push(added[i as int]));
            assert(start + added.take(i + 1) =~= (start + added.take(i as int)).push(added[i as int]));
        }
        i = i + 1;
    }
    assert(added.take(i as int) =~= added);
}

fn add_plain(entries: &mut Vec<SearchEntry>, items: &Vec<NavItem>, kind: &str)
    ensures
        entry_views(final(entries)@) == entry_views(old(entries)@) + item_views(items@).map_values(
            |item: NavItemView| plain_entry(item, kind@),
        ),
{
    let ghost start = entry_views(entries@);
    let ghost added = item_views(items@).map_values(|item: NavItemView| plain_entry(item, kind@));
    let mut i: usize = 0;
    assert(entry_views(entries@) =~= start + added.take(0));
    while i < items.len()
        invariant
            i <= items.len(),
            added == item_views(items@).map_values(|item: NavItemView| plain_entry(item, kind@)),
            entry_views(entries@) == start + added.take(i as int),
        decreases items.len() - i,
    {
        let item = &items[i];
        let ghost before = entries@;
        entries.push(SearchEntry { name: item.name.clone(), href: item.href.clone(), kind: kind.to_string() });
        proof {
            assert(entry_views(entries@) =~= entry_views(before).push(added[i as int]));
            assert(start + added.take(i + 1) =~= (start + added.take(i as int)).push(added[i as int]));
        }
        i = i + 1;
    }
    assert(added.take(i as int) =~= added);
}

fn add_members(entries: &mut Vec<SearchEntry>, base: &str, members: &Vec<DocMember>, kind: &str)
    ensures
        entry_views(final(entries)@) == entry_views(old(entries)@) + member_views(members@).map_values(
            |m: DocMemberView| member_entry(base@, m, kind@),
        ),
{
    let ghost start = entry_views(entries@);
    let ghost added = member_views(members@).map_values(|m: DocMemberView| member_entry(base@, m, kind@));
    let mut i: usize = 0;
    assert(entry_views(entries@) =~= start + added.take(0));
    while i < members.len()
        invariant
            i <= members.len(),
            added == member_views(members@).map_values(|m: DocMemberView| member_entry(base@, m, kind@)),
            entry_views(entries@) == start + added.take(i as int),
        decreases members.len() - i,
    {
        let member = &members[i];
        let ghost before = entries@;
        let mut href: String = base.to_string();
        href.append("#");
        href.append(member.short_name.as_str());
        entries.push(SearchEntry { name: member.name.clone(), href, kind: kind.to_string() });
        proof {
            assert(entry_views(entries@) =~= entry_views(before).push(added[i as int]));
            assert(start + added.take(i + 1) =~= (start + added.take(i as int)).push(added[i as int]));
        }
        i = i + 1;
    }
    assert(added.take(i as int) =~= added);
}

/// The page of the first entry of the navigation with the given short name; an
/// empty text where there is none.
pub fn find_href(nav: &NavModel, name: &str) -> (href: String)
    ensures
        href@ == first_href(all_items(nav@), name@),
{
    let ghost items = all_items(nav@);
    proof {
        assert(items.skip(0) =~= items);
        reveal_strlit("");
    }
    let mut i: usize = 0;
    while i < nav.types.len()
        invariant
            i <= nav.types.len(),
            items == all_items(nav@),
            first_href(items.skip(i as int), name@) == first_href(items, name@),
        decreases nav.types.len() - i,
    {
        assert(items[i as int] == nav.types@[i as int]@);
        if same_text(nav.types[i].short_name.as_str(), name) {
            return nav.types[i].href.clone();
        }
        assert(items.skip(i as int).drop_first() =~= items.skip(i + 1));
        i = i + 1;
    }
    let ghost t = nav.types@.len() as int;
    let mut j: usize = 0;
    while j < nav.modules.len()
        invariant
            j <= nav.modules.len(),
            items == all_items(nav@),
            t == nav.types@.len(),
            first_href(items.skip(t + j), name@) == first_href(items, name@),
        decreases nav.modules.len() - j,
    {
        assert(items[t + j] == nav.modules@[j as int]@);
        if same_text(nav.modules[j].short_name.as_str(), name) {
            return nav.modules[j].href.clone();
        }
        assert(items.skip(t + j).drop_first() =~= items.skip(t + j + 1));
        j = j + 1;
    }
    let ghost m = t + nav.modules@.len();
    let mut k: usize = 0;
    while k < nav.globals.len()
        invariant
            k <= nav.globals.len(),
            items == all_items(nav@),
            m == nav.types@.len() + nav.modules@.len(),
            first_href(items.skip(m + k), name@) == first_href(items, name@),
        decreases nav.globals.len() - k,
    {
        assert(items[m + k] == nav.globals@[k as int]@);
        if same_text(nav.globals[k].short_name.as_str(), name) {
            return nav.globals[k].href.clone();
        }
        assert(items.skip(m + k).drop_first() =~= items.skip(m + k + 1));
        k = k + 1;
    }
    String::new()
}

/// A search entry as the members of a JSON object.
pub open spec fn entry_members(entry: SearchEntryView) -> Seq<(Seq<char>, Seq<char>)> {
    seq![("href"@, entry.href), ("kind"@, entry.kind), ("name"@, entry.name)]
}

/// Search entries as the members of JSON objects.
pub open spec fn rows_of(entries: Seq<SearchEntryView>) -> Seq<Seq<(Seq<char>, Seq<char>)>> {
    entries.map_values(|entry: SearchEntryView| entry_members(entry))
}

/// The script that sets the search index.
pub open spec fn search_script(entries: Seq<SearchEntryView>) -> Seq<char> {
    "window.SEARCH_INDEX = "@ + json_array(rows_of(entries)) + ";"@
}

/// Writes search entries as the script that sets the search index. This always
/// succeeds.
pub fn search_index_js(entries: &Vec<SearchEntry>) -> (script: Result<String, SearchError>)
    ensures
        script is Ok,
        script->Ok_0@ == search_script(entry_views(entries@)),
{
    let ghost wanted = rows_of(entry_views(entries@));
    let mut rows: Vec<Vec<(String, String)>> = Vec::new();
    let mut i: usize = 0;
    while i < entries.len()
        invariant
            i <= entries.len(),
            wanted == rows_of(entry_views(entries@)),
            rows@.len() == i,
            forall|j: int| 0 <= j < i ==> #[trigger] row_texts(rows@)[j] == wanted[j],
            forall|j: int| 0 <= j < i ==> keys_ascend(#[trigger] row_texts(rows@)[j]),
        decreases entries.len() - i,
    {
        let entry = &entries[i];
        let mut row: Vec<(String, String)> = Vec::new();
        row.push(("href".to_string(), entry.href.clone()));
        row.push(("kind".to_string(), entry.kind.clone()));
        row.push(("name".to_string(), entry.name.clone()));
        proof {
            assert(member_texts(row) =~= entry_members(entry@));
            lemma_keys_ascend(entry@);
        }
        let ghost before = rows@;
        rows.push(row);
        proof {
            assert(row_texts(rows@) =~= row_texts(before).push(member_texts(row)));
        }
        i = i + 1;
    }
    assert(row_texts(rows@) =~= wanted);
    match to_json(&rows) {
        Ok(json) => {
            let mut script: String = "window.SEARCH_INDEX = ".to_string();
            script.append(json.as_str());
            script.append(";");
            Ok(script)
        },
        Err(_) => Err(SearchError::Json),
    }
}

/// The script keeps all that the entries say: different entries give different
/// scripts.
pub proof fn law_search_script_tells_apart(a: Seq<SearchEntryView>, b: Seq<SearchEntryView>)
    requires
        search_script(a) == search_script(b),
    ensures
        a == b,
{
    let start = "window.SEARCH_INDEX = "@.len() as int;
    assert(search_script(a).len() == search_script(b).len());
    let end = search_script(a).len() - ";"@.len();
    assert(search_script(a).subrange(start, end) =~= json_array(rows_of(a)));
    assert(search_script(b).subrange(start, end) =~= json_array(rows_of(b)));
    law_json_array_tells_apart(rows_of(a), rows_of(b));
    assert forall|i: int| 0 <= i < a.len() implies a[i] == b[i] by {
        assert(rows_of(a)[i] == rows_of(b)[i]);
        assert(entry_members(a[i])[0] == entry_members(b[i])[0]);
        assert(entry_members(a[i])[1] == entry_members(b[i])[1]);
        assert(entry_members(a[i])[2] == entry_members(b[i])[2]);
    }
    assert(rows_of(a).len() == a.len() && rows_of(b).len() == b.len());
    assert(a =~= b);
}

proof fn lemma_keys_ascend(entry: SearchEntryView)
    ensures
        keys_ascend(entry_members(entry)),
{
    reveal_strlit("href");
    reveal_strlit("kind");
    reveal_strlit("name");
    assert("href"@[0] != "kind"@[0]);
    assert("href"@[0] != "name"@[0]);
    assert("kind"@[0] != "name"@[0]);
    assert(text_le("href"@, "kind"@));
    assert(text_le("href"@, "name"@));
    assert(text_le("kind"@, "name"@));
}

} // verus!

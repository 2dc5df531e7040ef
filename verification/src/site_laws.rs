//! What holds of every site.

use vstd::prelude::*;
use crate::index::{
    file_name, is_reserved, kind_text, law_links_are_those_of_shown_types, links, page_href, type_shown, types_shown,
    DbIndexView,
};
use crate::names::law_display_name_splits;
use crate::nav::{
    active_count, entry_name, finalized_nav, has_entry, items_for, law_one_entry_is_active, lettered_nav, name_of,
    nav_active_count, sorted_nav, unmarked, with_letter, with_letters,
};
use crate::search::{all_items, first_href, member_entries, search_index};
use crate::site::{
    bare_pages, base_nav, dirs, docs_fit, finished_doc, global_docs, item_of, items_of, kept, module_docs,
    name_or_default, page_of, pages_of, site, type_docs, Category, DocsView,
};
use crate::sort::{
    keys_differ, law_sorted_by_ignores_order, law_sorted_by_is_permutation, lemma_sorted_by_map_multiset, sorted_by,
};
use crate::types::{HtmlDocView, NavItemView, NavModelView, PageView};

verus! {

/// The pages of a category that are shown.
pub open spec fn docs_in(db: DbIndexView, docs: DocsView, category: Category) -> Seq<HtmlDocView> {
    match category {
        Category::Types => type_docs(db, docs),
        Category::Modules => module_docs(db, docs),
        Category::Globals => global_docs(db, docs),
    }
}

/// The links of entries.
pub open spec fn hrefs(items: Seq<NavItemView>) -> Seq<Seq<char>> {
    items.map_values(href_of())
}

/// The link of an entry, as a function.
pub open spec fn href_of() -> spec_fn(NavItemView) -> Seq<char> {
    |item: NavItemView| item.href
}

/// The files of pages.
pub open spec fn filenames(pages: Seq<PageView>) -> Seq<Seq<char>> {
    pages.map_values(|page: PageView| page.filename)
}

/// The navigation lists every page once and nothing else: its links are the files
/// of the pages.
pub proof fn law_navigation_lists_each_page_once(db: DbIndexView, docs: DocsView, site_name: Option<Seq<char>>)
    ensures
        ({
            let s = site(db, docs, site_name);
            hrefs(all_items(s.index.nav)).to_multiset() == filenames(s.pages).to_multiset()
        }),
{
    let s = site(db, docs, site_name);
    let t = s.index.nav.types;
    let m = s.index.nav.modules;
    let g = s.index.nav.globals;
    let td = type_docs(db, docs);
    let md = module_docs(db, docs);
    let gd = global_docs(db, docs);
    lemma_listed_hrefs(Category::Types, td);
    lemma_listed_hrefs(Category::Modules, md);
    lemma_listed_hrefs(Category::Globals, gd);
    assert(hrefs(all_items(s.index.nav)) =~= hrefs(t) + hrefs(m) + hrefs(g));
    let ft = filenames(pages_of(Category::Types, td));
    let fm = filenames(pages_of(Category::Modules, md));
    let fg = filenames(pages_of(Category::Globals, gd));
    assert(filenames(s.pages) =~= ft + fm + fg);
    vstd::seq_lib::lemma_multiset_commutative(hrefs(t), hrefs(m));
    vstd::seq_lib::lemma_multiset_commutative(hrefs(t) + hrefs(m), hrefs(g));
    vstd::seq_lib::lemma_multiset_commutative(ft, fm);
    vstd::seq_lib::lemma_multiset_commutative(ft + fm, fg);
}

/// The entries of a category as the navigation lists them.
pub open spec fn listed(category: Category, docs: Seq<HtmlDocView>) -> Seq<NavItemView> {
    with_letters(sorted_by(items_of(category, docs), name_of()))
}

proof fn lemma_listed_hrefs(category: Category, docs: Seq<HtmlDocView>)
    ensures
        hrefs(listed(category, docs)).to_multiset() == filenames(pages_of(category, docs)).to_multiset(),
{
    let items = items_of(category, docs);
    lemma_sorted_by_map_multiset(items, href_of(), name_of());
    assert(hrefs(listed(category, docs)) =~= sorted_by(items, name_of()).map_values(href_of()));
    assert(hrefs(items) =~= filenames(pages_of(category, docs)));
}

proof fn lemma_listed_len(category: Category, docs: Seq<HtmlDocView>)
    ensures
        listed(category, docs).len() == docs.len(),
{
    law_sorted_by_is_permutation(items_of(category, docs), name_of());
}

proof fn lemma_listed_source(category: Category, docs: Seq<HtmlDocView>, i: int) -> (k: int)
    requires
        0 <= i < listed(category, docs).len(),
    ensures
        0 <= k < docs.len(),
        listed(category, docs)[i] == with_letter(item_of(category, docs[k])),
{
    broadcast use vstd::seq_lib::group_to_multiset_ensures;

    let items = items_of(category, docs);
    let sorted = sorted_by(items, name_of());
    law_sorted_by_is_permutation(items, name_of());
    assert(sorted.contains(sorted[i]));
    assert(items.to_multiset().count(sorted[i]) > 0);
    choose|k: int| 0 <= k < items.len() && items[k] == sorted[i]
}

proof fn lemma_listed_place(category: Category, docs: Seq<HtmlDocView>, k: int) -> (i: int)
    requires
        0 <= k < docs.len(),
    ensures
        0 <= i < listed(category, docs).len(),
        listed(category, docs)[i] == with_letter(item_of(category, docs[k])),
{
    broadcast use vstd::seq_lib::group_to_multiset_ensures;

    let items = items_of(category, docs);
    let sorted = sorted_by(items, name_of());
    law_sorted_by_is_permutation(items, name_of());
    assert(items.contains(items[k]));
    assert(sorted.to_multiset().count(items[k]) > 0);
    choose|i: int| 0 <= i < sorted.len() && sorted[i] == items[k]
}

/// Whether an entry is that of a page, given the category of the page.
pub open spec fn entry_of_page(item: NavItemView, page: PageView, category: Category) -> bool {
    item == with_letter(item_of(category, page.doc)) && page.filename == item.href
}

proof fn lemma_entry_has_page(db: DbIndexView, docs: DocsView, name: Seq<char>, x: int) -> (found: (int, Category, int))
    requires
        0 <= x < all_items(base_nav(db, docs, name)).len(),
    ensures
        0 <= found.0 < bare_pages(db, docs).len(),
        entry_of_page(all_items(base_nav(db, docs, name))[x], bare_pages(db, docs)[found.0], found.1),
        0 <= found.2 < docs_in(db, docs, found.1).len(),
        bare_pages(db, docs)[found.0].doc == docs_in(db, docs, found.1)[found.2],
{
    let td = type_docs(db, docs);
    let md = module_docs(db, docs);
    let gd = global_docs(db, docs);
    let items = all_items(base_nav(db, docs, name));
    let pages = bare_pages(db, docs);
    lemma_listed_len(Category::Types, td);
    lemma_listed_len(Category::Modules, md);
    lemma_listed_len(Category::Globals, gd);
    assert(items =~= listed(Category::Types, td) + listed(Category::Modules, md) + listed(Category::Globals, gd));
    if x < td.len() {
        assert(items[x] == listed(Category::Types, td)[x]);
        let k = lemma_listed_source(Category::Types, td, x);
        assert(pages[k] == page_of(Category::Types, td[k]));
        assert(docs_in(db, docs, Category::Types)[k] == td[k]);
        (k, Category::Types, k)
    } else if x < td.len() + md.len() {
        let y = x - td.len();
        assert(items[x] == listed(Category::Modules, md)[y]);
        let k = lemma_listed_source(Category::Modules, md, y);
        assert(pages[td.len() + k] == page_of(Category::Modules, md[k]));
        assert(docs_in(db, docs, Category::Modules)[k] == md[k]);
        (td.len() + k, Category::Modules, k)
    } else {
        let y = x - td.len() - md.len();
        assert(items[x] == listed(Category::Globals, gd)[y]);
        let k = lemma_listed_source(Category::Globals, gd, y);
        assert(pages[td.len() + md.len() + k] == page_of(Category::Globals, gd[k]));
        assert(docs_in(db, docs, Category::Globals)[k] == gd[k]);
        (td.len() + md.len() + k, Category::Globals, k)
    }
}

proof fn lemma_page_has_entry(db: DbIndexView, docs: DocsView, name: Seq<char>, i: int) -> (found: (int, Category, int))
    requires
        0 <= i < bare_pages(db, docs).len(),
    ensures
        0 <= found.0 < all_items(base_nav(db, docs, name)).len(),
        entry_of_page(all_items(base_nav(db, docs, name))[found.0], bare_pages(db, docs)[i], found.1),
        bare_pages(db, docs)[i] == page_of(found.1, bare_pages(db, docs)[i].doc),
        0 <= found.2 < docs_in(db, docs, found.1).len(),
        bare_pages(db, docs)[i].doc == docs_in(db, docs, found.1)[found.2],
{
    let td = type_docs(db, docs);
    let md = module_docs(db, docs);
    let gd = global_docs(db, docs);
    let items = all_items(base_nav(db, docs, name));
    let pages = bare_pages(db, docs);
    lemma_listed_len(Category::Types, td);
    lemma_listed_len(Category::Modules, md);
    lemma_listed_len(Category::Globals, gd);
    assert(items =~= listed(Category::Types, td) + listed(Category::Modules, md) + listed(Category::Globals, gd));
    if i < td.len() {
        let k = i;
        assert(pages[i] == page_of(Category::Types, td[k]));
        assert(docs_in(db, docs, Category::Types)[k] == td[k]);
        let x = lemma_listed_place(Category::Types, td, k);
        assert(items[x] == listed(Category::Types, td)[x]);
        (x, Category::Types, k)
    } else if i < td.len() + md.len() {
        let k = i - td.len();
        assert(pages[i] == page_of(Category::Modules, md[k]));
        assert(docs_in(db, docs, Category::Modules)[k] == md[k]);
        let x = lemma_listed_place(Category::Modules, md, k);
        assert(items[td.len() + x] == listed(Category::Modules, md)[x]);
        (td.len() + x, Category::Modules, k)
    } else {
        let k = i - td.len() - md.len();
        assert(pages[i] == page_of(Category::Globals, gd[k]));
        assert(docs_in(db, docs, Category::Globals)[k] == gd[k]);
        let x = lemma_listed_place(Category::Globals, gd, k);
        assert(items[td.len() + md.len() + x] == listed(Category::Globals, gd)[x]);
        (td.len() + md.len() + x, Category::Globals, k)
    }
}

proof fn lemma_none_active(items: Seq<NavItemView>)
    requires
        forall|i: int| 0 <= i < items.len() ==> !(#[trigger] items[i]).active,
    ensures
        active_count(items) == 0,
    decreases items.len(),
{
    if items.len() > 0 {
        lemma_none_active(items.drop_last());
        assert(!items[items.len() - 1].active);
    }
}

proof fn lemma_listed_unmarked(category: Category, docs: Seq<HtmlDocView>)
    ensures
        active_count(listed(category, docs)) == 0,
        unmarked(listed(category, docs)) == listed(category, docs),
{
    let items = listed(category, docs);
    assert forall|i: int| 0 <= i < items.len() implies !(#[trigger] items[i]).active by {
        let k = lemma_listed_source(category, docs, i);
    }
    lemma_none_active(items);
    assert(unmarked(items) =~= items);
}

proof fn lemma_base_unmarked(db: DbIndexView, docs: DocsView, name: Seq<char>)
    ensures
        nav_active_count(base_nav(db, docs, name)) == 0,
        unmarked(base_nav(db, docs, name).types) == base_nav(db, docs, name).types,
        unmarked(base_nav(db, docs, name).modules) == base_nav(db, docs, name).modules,
        unmarked(base_nav(db, docs, name).globals) == base_nav(db, docs, name).globals,
{
    let base = base_nav(db, docs, name);
    let td = type_docs(db, docs);
    let md = module_docs(db, docs);
    let gd = global_docs(db, docs);
    assert(base.types == listed(Category::Types, td));
    assert(base.modules == listed(Category::Modules, md));
    assert(base.globals == listed(Category::Globals, gd));
    lemma_listed_unmarked(Category::Types, td);
    lemma_listed_unmarked(Category::Modules, md);
    lemma_listed_unmarked(Category::Globals, gd);
}

/// All pages show the same navigation: they have the entries of the landing page
/// and the name of the site, and differ from it in which entry is active. On the
/// landing page none is.
pub proof fn law_pages_share_their_navigation(db: DbIndexView, docs: DocsView, site_name: Option<Seq<char>>, i: int)
    requires
        0 <= i < site(db, docs, site_name).pages.len(),
    ensures
        ({
            let s = site(db, docs, site_name);
            let nav = s.pages[i].doc.nav;
            &&& nav_active_count(s.index.nav) == 0
            &&& nav.site_name == s.index.nav.site_name
            &&& unmarked(nav.types) == s.index.nav.types
            &&& unmarked(nav.modules) == s.index.nav.modules
            &&& unmarked(nav.globals) == s.index.nav.globals
        }),
{
    let name = name_or_default(site_name);
    let base = base_nav(db, docs, name);
    let doc = bare_pages(db, docs)[i].doc;
    lemma_base_unmarked(db, docs, name);
    law_one_entry_is_active(NavModelView { root_prefix: "../"@, ..base }, doc.kind, doc.name);
}

/// Whether a kind is one that pages of the category have.
pub open spec fn kind_fits(category: Category, kind: Seq<char>) -> bool {
    match category {
        Category::Types => kind == "class"@ || kind == "enum"@ || kind == "alias"@,
        Category::Modules => kind == "module"@,
        Category::Globals => kind == "global"@,
    }
}

/// Whether every page that is shown has a kind of its category.
pub open spec fn kinds_fit(db: DbIndexView, docs: DocsView) -> bool {
    forall|category: Category, k: int|
        0 <= k < docs_in(db, docs, category).len() ==> kind_fits(
            category,
            (#[trigger] docs_in(db, docs, category)[k]).kind,
        )
}

proof fn lemma_entry_name(category: Category, doc: HtmlDocView, nav: NavModelView)
    requires
        kind_fits(category, doc.kind),
    ensures
        item_of(category, doc).name == entry_name(doc.kind, doc.name),
        items_for(nav, doc.kind) == match category {
            Category::Types => nav.types,
            Category::Modules => nav.modules,
            Category::Globals => nav.globals,
        },
{
    reveal_strlit("class");
    reveal_strlit("enum");
    reveal_strlit("alias");
    reveal_strlit("module");
    reveal_strlit("global");
    assert("class"@.len() != "module"@.len() && "class"@.len() != "global"@.len());
    assert("enum"@.len() != "module"@.len() && "enum"@.len() != "global"@.len());
    assert("alias"@.len() != "module"@.len() && "alias"@.len() != "global"@.len());
    assert("module"@[0] != "global"@[0]);
}

proof fn lemma_name_fixes_href(category: Category, a: HtmlDocView, b: HtmlDocView)
    requires
        kind_fits(category, a.kind),
        kind_fits(category, b.kind),
        item_of(category, a).name == item_of(category, b).name,
    ensures
        item_of(category, a).href == item_of(category, b).href,
{
    if category == Category::Types {
        law_display_name_splits(a.kind, a.name);
        law_display_name_splits(b.kind, b.name);
    }
}

/// What the entry of a page shows.
pub open spec fn shown_name(page: PageView) -> Seq<char> {
    entry_name(page.doc.kind, page.doc.name)
}

/// On every page exactly one entry is active. It shows the name of the page and
/// leads to the page.
pub proof fn law_each_page_marks_itself(db: DbIndexView, docs: DocsView, site_name: Option<Seq<char>>, i: int)
    requires
        kinds_fit(db, docs),
        0 <= i < site(db, docs, site_name).pages.len(),
    ensures
        ({
            let page = site(db, docs, site_name).pages[i];
            let items = all_items(page.doc.nav);
            &&& nav_active_count(page.doc.nav) == 1
            &&& forall|x: int|
                0 <= x < items.len() && (#[trigger] items[x]).active ==> items[x].name == shown_name(page)
                    && items[x].href == page.filename
        }),
{
    let name = name_or_default(site_name);
    let base = base_nav(db, docs, name);
    let start = NavModelView { root_prefix: "../"@, ..base };
    let page = site(db, docs, site_name).pages[i];
    let doc = bare_pages(db, docs)[i].doc;
    let nav = page.doc.nav;
    let wanted = shown_name(page);
    let (x, category, k) = lemma_page_has_entry(db, docs, name, i);
    let shown = docs_in(db, docs, category);
    let before = listed(category, shown);
    let after = items_for(nav, doc.kind);
    lemma_base_unmarked(db, docs, name);
    law_one_entry_is_active(start, doc.kind, doc.name);
    assert(kind_fits(category, docs_in(db, docs, category)[k].kind));
    lemma_entry_name(category, doc, start);
    lemma_entry_name(category, doc, nav);
    assert(items_for(start, doc.kind) == before);
    assert(has_entry(before, wanted)) by {
        let y = lemma_listed_place(category, shown, k);
        assert(before[y].name == wanted);
    }
    assert(unmarked(after) == before);
    assert forall|y: int| 0 <= y < after.len() && (#[trigger] after[y]).active implies after[y].name == wanted
        && after[y].href == page.filename by {
        assert(unmarked(after)[y] == before[y]);
        let j = lemma_listed_source(category, shown, y);
        assert(kind_fits(category, docs_in(db, docs, category)[j].kind));
        lemma_name_fixes_href(category, doc, shown[j]);
    }
    let items = all_items(nav);
    let t = nav.types.len() as int;
    let m = nav.modules.len() as int;
    assert forall|y: int| 0 <= y < items.len() && (#[trigger] items[y]).active implies items[y].name == wanted
        && items[y].href == page.filename by {
        if y < t {
            assert(items[y] == nav.types[y]);
            assert(category != Category::Types ==> nav.types[y] == unmarked(base.types)[y]);
        } else if y < t + m {
            assert(items[y] == nav.modules[y - t]);
            assert(category != Category::Modules ==> nav.modules[y - t] == unmarked(base.modules)[y - t]);
        } else {
            assert(items[y] == nav.globals[y - t - m]);
            assert(category != Category::Globals ==> nav.globals[y - t - m] == unmarked(base.globals)[y - t - m]);
        }
    }
}

/// The place of the page of the type at `i` among the pages of the site.
pub open spec fn place_of_type(db: DbIndexView, docs: DocsView, i: int) -> int {
    kept(docs.types.take(i), types_shown(db).take(i)).len() as int
}

/// The link to a type is the file of its page: where the type at `i` is shown, has
/// a page of its kind and full name, and no other type that is shown shares that
/// name, its link is the name of the file that this page is written to.
pub proof fn law_link_is_the_file_of_the_page(
    db: DbIndexView,
    docs: DocsView,
    site_name: Option<Seq<char>>,
    i: int,
)
    requires
        docs_fit(db, docs),
        0 <= i < db.types.len(),
        type_shown(db, i),
        docs.types[i] is Some,
        docs.types[i]->0.kind == kind_text(db.types[i].kind),
        docs.types[i]->0.name == db.types[i].full_name,
        forall|j: int|
            0 <= j < db.types.len() && j != i && #[trigger] type_shown(db, j) ==> db.types[j].full_name
                != db.types[i].full_name,
    ensures
        ({
            let s = site(db, docs, site_name);
            let k = place_of_type(db, docs, i);
            let base = base_nav(db, docs, name_or_default(site_name));
            &&& 0 <= k < s.pages.len()
            &&& s.pages[k].doc == finished_doc(base, docs.types[i]->0)
            &&& links(db).contains_key(db.types[i].full_name)
            &&& links(db)[db.types[i].full_name] == s.pages[k].filename
        }),
{
    let k = place_of_type(db, docs, i);
    law_links_are_those_of_shown_types(db);
    assert(types_shown(db)[i] == type_shown(db, i));
    lemma_kept_member(docs.types, types_shown(db), i);
    assert(bare_pages(db, docs)[k] == page_of(Category::Types, docs.types[i]->0));
    assert(links(db).contains_key(db.types[i].full_name));
}

/// Where every type that is shown has a page of its own kind and name, each link
/// to a type leads to a page of the site.
pub proof fn law_links_lead_to_pages(db: DbIndexView, docs: DocsView, site_name: Option<Seq<char>>)
    requires
        docs_fit(db, docs),
        forall|i: int|
            0 <= i < db.types.len() && #[trigger] type_shown(db, i) ==> docs.types[i] is Some
                && docs.types[i]->0.kind == kind_text(db.types[i].kind) && docs.types[i]->0.name
                == db.types[i].full_name,
    ensures
        forall|name: Seq<char>| #[trigger]
            links(db).contains_key(name) ==> filenames(
                site(db, docs, site_name).pages,
            ).contains(links(db)[name]),
{
    let n = db.types.len() as int;
    let pages = site(db, docs, site_name).pages;
    law_links_are_those_of_shown_types(db);
    assert forall|name: Seq<char>| #[trigger] links(db).contains_key(name) implies filenames(pages).contains(
        links(db)[name],
    ) by {
        let i = choose|i: int|
            0 <= i < n && #[trigger] type_shown(db, i) && db.types[i].full_name == name && links(db)[name]
                == page_href(kind_text(db.types[i].kind), name);
        assert(types_shown(db)[i] == type_shown(db, i));
        let k = place_of_type(db, docs, i);
        lemma_kept_member(docs.types, types_shown(db), i);
        assert(bare_pages(db, docs)[k] == page_of(Category::Types, docs.types[i]->0));
        assert(filenames(pages)[k] == links(db)[name]);
    }
}

pub proof fn lemma_kept_member(docs: Seq<Option<HtmlDocView>>, shown: Seq<bool>, i: int)
    requires
        0 <= i < docs.len(),
        docs.len() == shown.len(),
        shown[i],
        docs[i] is Some,
    ensures
        kept(docs.take(i), shown.take(i)).len() < kept(docs, shown).len(),
        kept(docs, shown)[kept(docs.take(i), shown.take(i)).len() as int] == docs[i]->0,
    decreases docs.len(),
{
    let front = docs.drop_last();
    let front_shown = shown.drop_last();
    if i == docs.len() - 1 {
        assert(docs.take(i) =~= front);
        assert(shown.take(i) =~= front_shown);
    } else {
        lemma_kept_member(front, front_shown, i);
        assert(front.take(i) =~= docs.take(i));
        assert(front_shown.take(i) =~= shown.take(i));
    }
}

/// Whether `path` leads to a file directly in a directory.
pub open spec fn lies_in(path: Seq<char>, dir: Seq<char>, file: Seq<char>) -> bool {
    path == dir + "/"@ + file && forall|x: int| 0 <= x < file.len() ==> !is_reserved(#[trigger] file[x])
}

/// Every page lies directly in one of the directories for pages.
pub proof fn law_pages_lie_in_directories(db: DbIndexView, docs: DocsView, site_name: Option<Seq<char>>, i: int)
    requires
        kinds_fit(db, docs),
        0 <= i < site(db, docs, site_name).pages.len(),
    ensures
        exists|dir: Seq<char>, file: Seq<char>|
            dirs().contains(dir) && #[trigger] lies_in(site(db, docs, site_name).pages[i].filename, dir, file),
{
    let name = name_or_default(site_name);
    let (x, category, k) = lemma_page_has_entry(db, docs, name, i);
    let page = bare_pages(db, docs)[i];
    let kind = match category {
        Category::Types => page.doc.kind,
        Category::Modules => "module"@,
        Category::Globals => "global"@,
    };
    let file = file_name(page.doc.name) + ".html"@;
    reveal_strlit(".html");
    assert(page.filename =~= kind + "/"@ + file);
    let d: int = if kind == "class"@ {
        0
    } else if kind == "enum"@ {
        1
    } else if kind == "alias"@ {
        2
    } else if kind == "module"@ {
        3
    } else {
        4
    };
    assert(dirs()[d] == kind);
    assert(lies_in(site(db, docs, site_name).pages[i].filename, kind, file));
}

/// How many members pages have.
pub open spec fn member_count(pages: Seq<PageView>) -> nat
    decreases pages.len(),
{
    if pages.len() == 0 {
        0
    } else {
        member_count(pages.drop_last()) + pages.last().doc.fields.len() + pages.last().doc.methods.len()
    }
}

/// The search index leaves nothing out: it has an entry for every page and for
/// every member of a page.
pub proof fn law_search_index_is_complete(db: DbIndexView, docs: DocsView, site_name: Option<Seq<char>>)
    ensures
        ({
            let s = site(db, docs, site_name);
            search_index(s.index.nav, s.pages).len() == s.pages.len() + member_count(s.pages)
        }),
{
    let s = site(db, docs, site_name);
    let name = name_or_default(site_name);
    let items = all_items(s.index.nav);
    lemma_listed_len(Category::Types, type_docs(db, docs));
    lemma_listed_len(Category::Modules, module_docs(db, docs));
    lemma_listed_len(Category::Globals, global_docs(db, docs));
    assert(items == all_items(base_nav(db, docs, name)));
    assert forall|i: int| 0 <= i < s.pages.len() implies first_href(items, (#[trigger] s.pages[i]).doc.name).len()
        > 0 by {
        let (x, category, k) = lemma_page_has_entry(db, docs, name, i);
        assert(items[x].short_name == s.pages[i].doc.name);
        assert forall|y: int| 0 <= y < items.len() implies (#[trigger] items[y]).href.len() > 0 by {
            let (j, other, k) = lemma_entry_has_page(db, docs, name, y);
            reveal_strlit("/");
        }
        let y = lemma_first_href(items, s.pages[i].doc.name, x);
    }
    lemma_member_entries_len(s.index.nav, s.pages);
}

proof fn lemma_first_href(items: Seq<NavItemView>, name: Seq<char>, x: int) -> (y: int)
    requires
        0 <= x < items.len(),
        items[x].short_name == name,
    ensures
        0 <= y < items.len(),
        items[y].short_name == name,
        first_href(items, name) == items[y].href,
    decreases items.len(),
{
    if items[0].short_name == name {
        0
    } else {
        let y = lemma_first_href(items.drop_first(), name, x - 1);
        assert(items.drop_first()[y] == items[y + 1]);
        y + 1
    }
}

proof fn lemma_member_entries_len(nav: NavModelView, pages: Seq<PageView>)
    requires
        forall|i: int|
            0 <= i < pages.len() ==> first_href(all_items(nav), (#[trigger] pages[i]).doc.name).len() > 0,
    ensures
        member_entries(nav, pages).len() == member_count(pages),
    decreases pages.len(),
{
    if pages.len() > 0 {
        let front = pages.drop_last();
        assert forall|i: int| 0 <= i < front.len() implies first_href(
            all_items(nav),
            (#[trigger] front[i]).doc.name,
        ).len() > 0 by {
            assert(front[i] == pages[i]);
        }
        lemma_member_entries_len(nav, front);
        assert(first_href(all_items(nav), pages[pages.len() - 1].doc.name).len() > 0);
    }
}

/// The entries of the members of a page lead to that page, where no other page
/// has its name.
pub proof fn law_members_are_found_on_their_page(
    db: DbIndexView,
    docs: DocsView,
    site_name: Option<Seq<char>>,
    i: int,
)
    requires
        0 <= i < site(db, docs, site_name).pages.len(),
        forall|j: int|
            0 <= j < site(db, docs, site_name).pages.len() && j != i ==> (#[trigger] site(
                db,
                docs,
                site_name,
            ).pages[j]).doc.name != site(db, docs, site_name).pages[i].doc.name,
    ensures
        ({
            let s = site(db, docs, site_name);
            first_href(all_items(s.index.nav), s.pages[i].doc.name) == s.pages[i].filename
        }),
{
    let s = site(db, docs, site_name);
    let name = name_or_default(site_name);
    let items = all_items(s.index.nav);
    assert(items == all_items(base_nav(db, docs, name)));
    let (x, category, k) = lemma_page_has_entry(db, docs, name, i);
    let y = lemma_first_href(items, s.pages[i].doc.name, x);
    let (j, other, k) = lemma_entry_has_page(db, docs, name, y);
    assert(s.pages[j].doc.name == s.pages[i].doc.name);
}

/// The order in which declarations come does not show in the navigation, where
/// no two entries of a category have the same name.
pub proof fn law_navigation_ignores_order(a: NavModelView, b: NavModelView)
    requires
        a.types.to_multiset() == b.types.to_multiset(),
        a.modules.to_multiset() == b.modules.to_multiset(),
        a.globals.to_multiset() == b.globals.to_multiset(),
        b == (NavModelView { types: b.types, modules: b.modules, globals: b.globals, ..a }),
        keys_differ(a.types, name_of()),
        keys_differ(a.modules, name_of()),
        keys_differ(a.globals, name_of()),
    ensures
        sorted_nav(a) == sorted_nav(b),
        finalized_nav(lettered_nav(sorted_nav(a))) == finalized_nav(lettered_nav(sorted_nav(b))),
{
    law_sorted_by_ignores_order(a.types, b.types, name_of());
    law_sorted_by_ignores_order(a.modules, b.modules, name_of());
    law_sorted_by_ignores_order(a.globals, b.globals, name_of());
}

} // verus!

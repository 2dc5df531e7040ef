//! What holds of the pages of a site and of its navigation, one by one.

use vstd::prelude::*;
use crate::index::{globals_shown, modules_shown, page_href, types_shown, DbIndexView};
use crate::nav::{marked_nav, name_of, with_letter};
use crate::nav_laws::{
    is_derived, law_finalizing_derives_everything, law_pages_are_marked_in_their_category, marks_page,
};
use crate::site::{
    bare_pages, base_nav, dirs, doc_views, docs_fit, finished_doc, global_docs, items_of, kept, module_docs,
    name_or_default, page_of, site, type_docs, Category, Docs, DocsView, Site,
};
use crate::site_laws::{lemma_kept_member, listed};
use crate::sort::{law_sorted_by_is_stable_order, lemma_sorted_by_map_multiset, sorted_by};
use crate::text::{is_upper_of, law_initial_is_the_first_letter, text_le};
use crate::types::{page_views, HtmlDoc, HtmlDocView, NavItemView, NavModelView, PageView};

verus! {

/// Whether `doc` says of its declaration what `given` does.
pub open spec fn says_the_same(doc: HtmlDocView, given: HtmlDocView) -> bool {
    &&& doc.title == given.title
    &&& doc.name == given.name
    &&& doc.kind == given.kind
    &&& doc.fields == given.fields
    &&& doc.methods == given.methods
}

/// Whether the page has the first letter of its kind, in upper case, for its badge,
/// and a question mark where it has no kind.
pub open spec fn has_badge(doc: HtmlDocView) -> bool {
    if doc.kind.len() == 0 {
        doc.kind_letter == seq!['?']
    } else {
        doc.kind_letter.len() == 1 && is_upper_of(doc.kind_letter[0], doc.kind[0])
    }
}

/// A finished page says what it said, has its badge, and has the navigation that it
/// is given with itself marked, one level below the root, and all that is derived
/// from it.
pub proof fn law_finishing_a_page(base: NavModelView, doc: HtmlDocView)
    ensures
        ({
            let page = finished_doc(base, doc);
            &&& says_the_same(page, doc)
            &&& has_badge(page)
            &&& page.nav.root_prefix == seq!['.', '.', '/']
            &&& page.nav.site_name == base.site_name
            &&& marks_page(page.nav, base, doc.kind, doc.name)
            &&& is_derived(page.nav)
        }),
{
    reveal_strlit("../");
    reveal_strlit("?");
    assert("../"@ =~= seq!['.', '.', '/']);
    assert("?"@ =~= seq!['?']);
    let start = NavModelView { root_prefix: "../"@, ..base };
    law_initial_is_the_first_letter(doc.kind, "?"@);
    law_pages_are_marked_in_their_category(start, doc.kind, doc.name);
    law_finalizing_derives_everything(marked_nav(start, doc.kind, doc.name));
}

/// How many of the first `n` declarations are shown and have a page.
pub open spec fn pages_among(docs: Seq<Option<HtmlDocView>>, shown: Seq<bool>, n: int) -> nat
    decreases n,
{
    if n <= 0 {
        0
    } else if shown[n - 1] && docs[n - 1] is Some {
        pages_among(docs, shown, n - 1) + 1
    } else {
        pages_among(docs, shown, n - 1)
    }
}

proof fn lemma_pages_among(docs: Seq<Option<HtmlDocView>>, shown: Seq<bool>, n: int)
    requires
        0 <= n <= docs.len(),
        docs.len() == shown.len(),
    ensures
        kept(docs.take(n), shown.take(n)).len() == pages_among(docs, shown, n),
    decreases n,
{
    if n > 0 {
        lemma_pages_among(docs, shown, n - 1);
        assert(docs.take(n).drop_last() =~= docs.take(n - 1));
        assert(shown.take(n).drop_last() =~= shown.take(n - 1));
    }
}

proof fn lemma_kept_at(docs: Seq<Option<HtmlDocView>>, shown: Seq<bool>, i: int)
    requires
        0 <= i < docs.len(),
        docs.len() == shown.len(),
        shown[i],
        docs[i] is Some,
    ensures
        pages_among(docs, shown, i) < kept(docs, shown).len(),
        kept(docs, shown)[pages_among(docs, shown, i) as int] == docs[i]->0,
{
    lemma_pages_among(docs, shown, i);
    lemma_kept_member(docs, shown, i);
}

proof fn lemma_kept_len(docs: Seq<Option<HtmlDocView>>, shown: Seq<bool>)
    requires
        docs.len() == shown.len(),
    ensures
        kept(docs, shown).len() == pages_among(docs, shown, docs.len() as int),
{
    lemma_pages_among(docs, shown, docs.len() as int);
    assert(docs.take(docs.len() as int) =~= docs);
    assert(shown.take(docs.len() as int) =~= shown);
}

/// How many types have a page on the site.
pub open spec fn type_count(db: DbIndexView, docs: DocsView) -> nat {
    pages_among(docs.types, types_shown(db), docs.types.len() as int)
}

/// How many modules have a page on the site.
pub open spec fn module_count(db: DbIndexView, docs: DocsView) -> nat {
    pages_among(docs.modules, modules_shown(db), docs.modules.len() as int)
}

/// How many globals have a page on the site.
pub open spec fn global_count(db: DbIndexView, docs: DocsView) -> nat {
    pages_among(docs.globals, globals_shown(db), docs.globals.len() as int)
}

/// The site has a page for each declaration that is shown and that there is
/// something to say of, and no others.
pub proof fn law_pages_are_as_many_as_declarations(db: DbIndexView, docs: DocsView, site_name: Option<Seq<char>>)
    requires
        docs_fit(db, docs),
    ensures
        site(db, docs, site_name).pages.len() == type_count(db, docs) + module_count(db, docs) + global_count(
            db,
            docs,
        ),
{
    lemma_kept_len(docs.types, types_shown(db));
    lemma_kept_len(docs.modules, modules_shown(db));
    lemma_kept_len(docs.globals, globals_shown(db));
}

/// Whether `page` is the page that says what `given` does, in the directory `dir`.
pub open spec fn is_page_for(page: PageView, given: HtmlDocView, dir: Seq<char>) -> bool {
    says_the_same(page.doc, given) && page.filename == page_href(dir, given.name)
}

/// A type that is shown has its page in the directory of its kind. The pages of types
/// come first, in the order of the types.
pub proof fn law_shown_types_have_pages(db: DbIndexView, docs: DocsView, site_name: Option<Seq<char>>, i: int)
    requires
        docs_fit(db, docs),
        0 <= i < docs.types.len(),
        types_shown(db)[i],
        docs.types[i] is Some,
    ensures
        ({
            let pages = site(db, docs, site_name).pages;
            let k = pages_among(docs.types, types_shown(db), i);
            &&& k < type_count(db, docs) <= pages.len()
            &&& is_page_for(pages[k as int], docs.types[i]->0, docs.types[i]->0.kind)
        }),
{
    let k = pages_among(docs.types, types_shown(db), i);
    lemma_kept_at(docs.types, types_shown(db), i);
    lemma_kept_len(docs.types, types_shown(db));
    assert(bare_pages(db, docs)[k as int] == page_of(Category::Types, docs.types[i]->0));
}

/// A module that is shown has its page in the directory of modules, behind the pages
/// of types, in the order of the modules.
pub proof fn law_shown_modules_have_pages(db: DbIndexView, docs: DocsView, site_name: Option<Seq<char>>, i: int)
    requires
        docs_fit(db, docs),
        0 <= i < docs.modules.len(),
        modules_shown(db)[i],
        docs.modules[i] is Some,
    ensures
        ({
            let pages = site(db, docs, site_name).pages;
            let k = type_count(db, docs) + pages_among(docs.modules, modules_shown(db), i);
            &&& k < type_count(db, docs) + module_count(db, docs) <= pages.len()
            &&& is_page_for(pages[k as int], docs.modules[i]->0, seq!['m', 'o', 'd', 'u', 'l', 'e'])
        }),
{
    reveal_strlit("module");
    assert("module"@ =~= seq!['m', 'o', 'd', 'u', 'l', 'e']);
    let k = type_count(db, docs) + pages_among(docs.modules, modules_shown(db), i);
    lemma_kept_at(docs.modules, modules_shown(db), i);
    lemma_kept_len(docs.types, types_shown(db));
    lemma_kept_len(docs.modules, modules_shown(db));
    assert(bare_pages(db, docs)[k as int] == page_of(Category::Modules, docs.modules[i]->0));
}

/// A global that is shown has its page in the directory of globals, behind the pages
/// of modules, in the order of the globals.
pub proof fn law_shown_globals_have_pages(db: DbIndexView, docs: DocsView, site_name: Option<Seq<char>>, i: int)
    requires
        docs_fit(db, docs),
        0 <= i < docs.globals.len(),
        globals_shown(db)[i],
        docs.globals[i] is Some,
    ensures
        ({
            let pages = site(db, docs, site_name).pages;
            let k = type_count(db, docs) + module_count(db, docs) + pages_among(
                docs.globals,
                globals_shown(db),
                i,
            );
            &&& k < pages.len()
            &&& is_page_for(pages[k as int], docs.globals[i]->0, seq!['g', 'l', 'o', 'b', 'a', 'l'])
        }),
{
    reveal_strlit("global");
    assert("global"@ =~= seq!['g', 'l', 'o', 'b', 'a', 'l']);
    let k = type_count(db, docs) + module_count(db, docs) + pages_among(docs.globals, globals_shown(db), i);
    lemma_kept_at(docs.globals, globals_shown(db), i);
    lemma_kept_len(docs.types, types_shown(db));
    lemma_kept_len(docs.modules, modules_shown(db));
    assert(bare_pages(db, docs)[k as int] == page_of(Category::Globals, docs.globals[i]->0));
}

/// Every page has its badge, leads one level up to the root, has the name of the
/// site, shows the navigation of the landing page with itself marked, and all that
/// is derived from that.
pub proof fn law_pages_have_their_navigation(db: DbIndexView, docs: DocsView, site_name: Option<Seq<char>>, i: int)
    requires
        0 <= i < site(db, docs, site_name).pages.len(),
    ensures
        ({
            let s = site(db, docs, site_name);
            let doc = s.pages[i].doc;
            &&& has_badge(doc)
            &&& doc.nav.root_prefix == seq!['.', '.', '/']
            &&& doc.nav.site_name == s.index.name
            &&& marks_page(doc.nav, s.index.nav, doc.kind, doc.name)
            &&& is_derived(doc.nav)
        }),
{
    let base = base_nav(db, docs, name_or_default(site_name));
    law_finishing_a_page(base, bare_pages(db, docs)[i].doc);
}

/// The landing page has the name of the site, by default `Docs`, stands at the root,
/// has all that is derived from its navigation, and documents nothing itself.
pub proof fn law_landing_page_names_the_site(db: DbIndexView, docs: DocsView, site_name: Option<Seq<char>>)
    ensures
        ({
            let doc = site(db, docs, site_name).index;
            &&& doc.title == seq!['i', 'n', 'd', 'e', 'x']
            &&& site_name is Some ==> doc.name == site_name->0
            &&& site_name is None ==> doc.name == seq!['D', 'o', 'c', 's']
            &&& doc.kind.len() == 0
            &&& doc.kind_letter.len() == 0
            &&& doc.fields.len() == 0
            &&& doc.methods.len() == 0
            &&& doc.nav.site_name == doc.name
            &&& doc.nav.root_prefix.len() == 0
            &&& is_derived(doc.nav)
        }),
{
    reveal_strlit("index");
    reveal_strlit("Docs");
    assert("index"@ =~= seq!['i', 'n', 'd', 'e', 'x']);
    assert("Docs"@ =~= seq!['D', 'o', 'c', 's']);
    law_finalizing_derives_everything(base_nav(db, docs, name_or_default(site_name)));
}

/// The entry of the page of a type: its kind, a space and its name, with the first
/// letter of its kind for a badge.
pub open spec fn type_entry_of(page: PageView) -> NavItemView {
    NavItemView {
        name: page.doc.kind + seq![' '] + page.doc.name,
        href: page.filename,
        kind: page.doc.kind,
        kind_letter: if page.doc.kind.len() == 0 {
            Seq::empty()
        } else {
            page.doc.kind_letter
        },
        short_name: page.doc.name,
        active: false,
    }
}

/// The entry of the page of a module or a global: its name.
pub open spec fn plain_entry_of(page: PageView, kind: Seq<char>, letter: char) -> NavItemView {
    NavItemView {
        name: page.doc.name,
        href: page.filename,
        kind,
        kind_letter: seq![letter],
        short_name: page.doc.name,
        active: false,
    }
}

/// The entries of the pages of types.
pub open spec fn type_entries(pages: Seq<PageView>) -> Seq<NavItemView> {
    pages.map_values(|page: PageView| type_entry_of(page))
}

/// The entries of the pages of modules or globals.
pub open spec fn plain_entries(pages: Seq<PageView>, kind: Seq<char>, letter: char) -> Seq<NavItemView> {
    pages.map_values(|page: PageView| plain_entry_of(page, kind, letter))
}

/// Whether the names of entries ascend.
pub open spec fn names_ascend(items: Seq<NavItemView>) -> bool {
    forall|i: int, j: int|
        0 <= i <= j < items.len() ==> text_le((#[trigger] items[i]).name, (#[trigger] items[j]).name)
}

/// The landing page lists the pages of each category under that category, each once
/// and with its own name, link, kind and badge, in ascending order of the names.
pub proof fn law_landing_page_lists_each_category(db: DbIndexView, docs: DocsView, site_name: Option<Seq<char>>)
    requires
        docs_fit(db, docs),
    ensures
        ({
            let s = site(db, docs, site_name);
            let nav = s.index.nav;
            let t = type_count(db, docs) as int;
            let m = t + module_count(db, docs);
            let pages = s.pages;
            &&& nav.types.to_multiset() == type_entries(pages.take(t)).to_multiset()
            &&& nav.modules.to_multiset() == plain_entries(
                pages.subrange(t, m),
                seq!['m', 'o', 'd', 'u', 'l', 'e'],
                'M',
            ).to_multiset()
            &&& nav.globals.to_multiset() == plain_entries(
                pages.skip(m),
                seq!['g', 'l', 'o', 'b', 'a', 'l'],
                'G',
            ).to_multiset()
            &&& names_ascend(nav.types)
            &&& names_ascend(nav.modules)
            &&& names_ascend(nav.globals)
        }),
{
    reveal_strlit("module");
    reveal_strlit("global");
    reveal_strlit(" ");
    reveal_strlit("?");
    assert("module"@ =~= seq!['m', 'o', 'd', 'u', 'l', 'e']);
    assert("global"@ =~= seq!['g', 'l', 'o', 'b', 'a', 'l']);
    assert(" "@ =~= seq![' ']);
    let s = site(db, docs, site_name);
    let (td, md, gd) = (type_docs(db, docs), module_docs(db, docs), global_docs(db, docs));
    let t = type_count(db, docs) as int;
    let m = t + module_count(db, docs);
    lemma_kept_len(docs.types, types_shown(db));
    lemma_kept_len(docs.modules, modules_shown(db));
    lemma_kept_len(docs.globals, globals_shown(db));
    lemma_listed_multiset(Category::Types, td);
    lemma_listed_multiset(Category::Modules, md);
    lemma_listed_multiset(Category::Globals, gd);
    lemma_listed_ascends(Category::Types, td);
    lemma_listed_ascends(Category::Modules, md);
    lemma_listed_ascends(Category::Globals, gd);
    let bare = bare_pages(db, docs);
    assert(s.index.nav.types == listed(Category::Types, td));
    assert(s.index.nav.modules == listed(Category::Modules, md));
    assert(s.index.nav.globals == listed(Category::Globals, gd));
    assert(lettered_items(Category::Types, td) =~= type_entries(s.pages.take(t))) by {
        assert forall|k: int| 0 <= k < td.len() implies lettered_items(Category::Types, td)[k] == type_entries(
            s.pages.take(t),
        )[k] by {
            assert(bare[k] == page_of(Category::Types, td[k]));
            assert(td[k].kind + " "@ + td[k].name =~= td[k].kind + seq![' '] + td[k].name);
        }
    }
    assert(lettered_items(Category::Modules, md) =~= plain_entries(s.pages.subrange(t, m), "module"@, 'M')) by {
        assert forall|k: int| 0 <= k < md.len() implies lettered_items(Category::Modules, md)[k] == plain_entries(
            s.pages.subrange(t, m),
            "module"@,
            'M',
        )[k] by {
            assert(bare[t + k] == page_of(Category::Modules, md[k]));
            assert(s.pages.subrange(t, m)[k] == s.pages[t + k]);
        }
    }
    assert(lettered_items(Category::Globals, gd) =~= plain_entries(s.pages.skip(m), "global"@, 'G')) by {
        assert forall|k: int| 0 <= k < gd.len() implies lettered_items(Category::Globals, gd)[k] == plain_entries(
            s.pages.skip(m),
            "global"@,
            'G',
        )[k] by {
            assert(bare[m + k] == page_of(Category::Globals, gd[k]));
            assert(s.pages.skip(m)[k] == s.pages[m + k]);
        }
    }
}

/// The entries of pages with their badges, unsorted.
pub open spec fn lettered_items(category: Category, docs: Seq<HtmlDocView>) -> Seq<NavItemView> {
    items_of(category, docs).map_values(|item: NavItemView| with_letter(item))
}

proof fn lemma_listed_multiset(category: Category, docs: Seq<HtmlDocView>)
    ensures
        listed(category, docs).to_multiset() == lettered_items(category, docs).to_multiset(),
{
    let f = |item: NavItemView| with_letter(item);
    let items = items_of(category, docs);
    lemma_sorted_by_map_multiset(items, f, name_of());
    assert(listed(category, docs) =~= sorted_by(items, name_of()).map_values(f));
    assert(lettered_items(category, docs) =~= items.map_values(f));
}

proof fn lemma_listed_ascends(category: Category, docs: Seq<HtmlDocView>)
    ensures
        names_ascend(listed(category, docs)),
{
    let items = items_of(category, docs);
    let sorted = sorted_by(items, name_of());
    law_sorted_by_is_stable_order(items, name_of());
    let after = listed(category, docs);
    assert forall|i: int, j: int| 0 <= i <= j < after.len() implies text_le(
        (#[trigger] after[i]).name,
        (#[trigger] after[j]).name,
    ) by {
        assert(text_le(name_of()(sorted[i]), name_of()(sorted[j])));
    }
}

/// The directories for pages are those of the kinds of declarations.
pub proof fn law_directories_are_those_of_the_kinds()
    ensures
        dirs() == seq![
            seq!['c', 'l', 'a', 's', 's'],
            seq!['e', 'n', 'u', 'm'],
            seq!['a', 'l', 'i', 'a', 's'],
            seq!['m', 'o', 'd', 'u', 'l', 'e'],
            seq!['g', 'l', 'o', 'b', 'a', 'l'],
        ],
{
    reveal_strlit("class");
    reveal_strlit("enum");
    reveal_strlit("alias");
    reveal_strlit("module");
    reveal_strlit("global");
    assert("class"@ =~= seq!['c', 'l', 'a', 's', 's']);
    assert("enum"@ =~= seq!['e', 'n', 'u', 'm']);
    assert("alias"@ =~= seq!['a', 'l', 'i', 'a', 's']);
    assert("module"@ =~= seq!['m', 'o', 'd', 'u', 'l', 'e']);
    assert("global"@ =~= seq!['g', 'l', 'o', 'b', 'a', 'l']);
}

/// The models of pages that may be missing are missing where they are, and are those
/// of each elsewhere.
pub proof fn law_doc_models_are_faithful(docs: Seq<Option<HtmlDoc>>)
    ensures
        doc_views(docs).len() == docs.len(),
        forall|i: int|
            0 <= i < docs.len() ==> ((#[trigger] doc_views(docs)[i]) is Some <==> docs[i] is Some) && (
            docs[i] is Some ==> doc_views(docs)[i]->0 == docs[i]->0@),
{
}

/// The models of given pages and of a site keep each list as it is.
pub proof fn law_site_model_is_faithful(docs: Docs, built: Site)
    ensures
        docs@.types == doc_views(docs.types@),
        docs@.modules == doc_views(docs.modules@),
        docs@.globals == doc_views(docs.globals@),
        built@.pages == page_views(built.pages@),
        built@.index == built.index@,
{
}

} // verus!

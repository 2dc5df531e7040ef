//! The site: the pages of all that is declared in the main workspace, and the
//! landing page.

use vstd::prelude::*;
use crate::index::{
    documented_globals, documented_modules, documented_types, globals_shown, modules_shown, page_href, page_path,
    types_shown, DbIndex, DbIndexView,
};
use crate::names::display_name;
use crate::nav::{
    fill_kind_letters, finalize_nav, finalized_nav, lettered_nav, mark_active, marked_nav, sort_nav, sorted_nav,
};
use crate::text::{initial, initial_of, str_views};
use crate::types::{
    empty_doc, empty_nav, item_views, option_view, page_views, HtmlDoc, HtmlDocView, NavItem, NavItemView, NavModel,
    NavModelView, Page, PageView,
};

verus! {

/// The pages of declarations, before they get their navigation. Each list runs
/// parallel to that of the declarations; `None` stands for a declaration that
/// there is nothing to say of.
#[derive(Debug, PartialEq, Eq)]
pub struct Docs {
    pub types: Vec<Option<HtmlDoc>>,
    pub modules: Vec<Option<HtmlDoc>>,
    pub globals: Vec<Option<HtmlDoc>>,
}

/// A site.
#[derive(Debug, PartialEq, Eq)]
pub struct Site {
    /// The pages of declarations: types, modules, globals.
    pub pages: Vec<Page>,
    /// The landing page.
    pub index: HtmlDoc,
}

/// The model of `Docs`.
#[verifier::ext_equal]
pub struct DocsView {
    pub types: Seq<Option<HtmlDocView>>,
    pub modules: Seq<Option<HtmlDocView>>,
    pub globals: Seq<Option<HtmlDocView>>,
}

/// The model of a `Site`.
#[verifier::ext_equal]
pub struct SiteView {
    pub pages: Seq<PageView>,
    pub index: HtmlDocView,
}

/// The models of pages that may be missing.
pub open spec fn doc_views(docs: Seq<Option<HtmlDoc>>) -> Seq<Option<HtmlDocView>> {
    docs.map_values(
        |doc: Option<HtmlDoc>|
            match doc {
                Some(d) => Some(d@),
                None => None,
            },
    )
}

impl View for Docs {
    type V = DocsView;

    open spec fn view(&self) -> DocsView {
        DocsView {
            types: doc_views(self.types@),
            modules: doc_views(self.modules@),
            globals: doc_views(self.globals@),
        }
    }
}

impl View for Site {
    type V = SiteView;

    open spec fn view(&self) -> SiteView {
        SiteView { pages: page_views(self.pages@), index: self.index@ }
    }
}

/// Whether the pages run parallel to the declarations.
pub open spec fn docs_fit(db: DbIndexView, docs: DocsView) -> bool {
    &&& docs.types.len() == db.types.len()
    &&& docs.modules.len() == db.modules.len()
    &&& docs.globals.len() == db.globals.len()
}

/// A category of the navigation.
#[derive(Clone, Copy, Debug, PartialEq, Eq, Structural)]
pub enum Category {
    Types,
    Modules,
    Globals,
}

/// The kind of a page: that of the declaration for types, else that of the
/// category.
pub open spec fn kind_in(category: Category, doc: HtmlDocView) -> Seq<char> {
    match category {
        Category::Types => doc.kind,
        Category::Modules => "module"@,
        Category::Globals => "global"@,
    }
}

/// The file of a page.
pub open spec fn page_of(category: Category, doc: HtmlDocView) -> PageView {
    PageView { filename: page_href(kind_in(category, doc), doc.name), doc }
}

/// The entry of a page.
pub open spec fn item_of(category: Category, doc: HtmlDocView) -> NavItemView {
    NavItemView {
        name: match category {
            Category::Types => display_name(doc.kind, doc.name),
            _ => doc.name,
        },
        href: page_href(kind_in(category, doc), doc.name),
        kind: kind_in(category, doc),
        kind_letter: Seq::empty(),
        short_name: doc.name,
        active: false,
    }
}

/// The pages that are shown, of those that there are.
pub open spec fn kept(docs: Seq<Option<HtmlDocView>>, shown: Seq<bool>) -> Seq<HtmlDocView>
    decreases docs.len(),
{
    if docs.len() == 0 {
        Seq::empty()
    } else {
        let front = kept(docs.drop_last(), shown.drop_last());
        if shown.last() && docs.last() is Some {
            front.push(docs.last()->0)
        } else {
            front
        }
    }
}

/// The files of pages.
pub open spec fn pages_of(category: Category, docs: Seq<HtmlDocView>) -> Seq<PageView> {
    docs.map_values(|doc: HtmlDocView| page_of(category, doc))
}

/// The entries of pages.
pub open spec fn items_of(category: Category, docs: Seq<HtmlDocView>) -> Seq<NavItemView> {
    docs.map_values(|doc: HtmlDocView| item_of(category, doc))
}

/// The pages of the types that are shown.
pub open spec fn type_docs(db: DbIndexView, docs: DocsView) -> Seq<HtmlDocView> {
    kept(docs.types, types_shown(db))
}

/// The pages of the modules that are shown.
pub open spec fn module_docs(db: DbIndexView, docs: DocsView) -> Seq<HtmlDocView> {
    kept(docs.modules, modules_shown(db))
}

/// The pages of the globals that are shown.
pub open spec fn global_docs(db: DbIndexView, docs: DocsView) -> Seq<HtmlDocView> {
    kept(docs.globals, globals_shown(db))
}

/// The pages that are shown, with their files.
pub open spec fn bare_pages(db: DbIndexView, docs: DocsView) -> Seq<PageView> {
    pages_of(Category::Types, type_docs(db, docs)) + pages_of(Category::Modules, module_docs(db, docs)) + pages_of(
        Category::Globals,
        global_docs(db, docs),
    )
}

/// The navigation as the declarations give it, unsorted.
pub open spec fn raw_nav(db: DbIndexView, docs: DocsView, site_name: Seq<char>) -> NavModelView {
    NavModelView {
        site_name,
        types: items_of(Category::Types, type_docs(db, docs)),
        modules: items_of(Category::Modules, module_docs(db, docs)),
        globals: items_of(Category::Globals, global_docs(db, docs)),
        ..empty_nav()
    }
}

/// The navigation that all pages share.
pub open spec fn base_nav(db: DbIndexView, docs: DocsView, site_name: Seq<char>) -> NavModelView {
    lettered_nav(sorted_nav(raw_nav(db, docs, site_name)))
}

/// A page with its badge and its navigation, in which its own entry is active and
/// which leads one level up to the root.
pub open spec fn finished_doc(base: NavModelView, doc: HtmlDocView) -> HtmlDocView {
    HtmlDocView {
        kind_letter: initial(doc.kind, "?"@),
        nav: finalized_nav(marked_nav(NavModelView { root_prefix: "../"@, ..base }, doc.kind, doc.name)),
        ..doc
    }
}

/// Pages with their badges and their navigation.
pub open spec fn finished_pages(base: NavModelView, pages: Seq<PageView>) -> Seq<PageView> {
    pages.map_values(|page: PageView| PageView { doc: finished_doc(base, page.doc), ..page })
}

/// The landing page.
pub open spec fn landing_doc(base: NavModelView, site_name: Seq<char>) -> HtmlDocView {
    HtmlDocView { title: "index"@, name: site_name, nav: finalized_nav(base), ..empty_doc() }
}

/// The name of the site, where none is given.
pub open spec fn name_or_default(site_name: Option<Seq<char>>) -> Seq<char> {
    match site_name {
        Some(name) => name,
        None => "Docs"@,
    }
}

/// The whole site.
pub open spec fn site(db: DbIndexView, docs: DocsView, site_name: Option<Seq<char>>) -> SiteView {
    let name = name_or_default(site_name);
    let base = base_nav(db, docs, name);
    SiteView { pages: finished_pages(base, bare_pages(db, docs)), index: landing_doc(base, name) }
}

/// Builds the site of all that is declared in the main workspace.
pub fn build_site(db: &DbIndex, docs: Docs, site_name: Option<String>) -> (built: Site)
    requires
        docs_fit(db@, docs@),
    ensures
        built@ == site(db@, docs@, option_view(site_name)),
{
    let name = match site_name {
        Some(name) => name,
        None => "Docs".to_string(),
    };
    let mut pages: Vec<Page> = Vec::new();
    let types = add_pages(Category::Types, docs.types, &documented_types(db), &mut pages);
    let modules = add_pages(Category::Modules, docs.modules, &documented_modules(db), &mut pages);
    let globals = add_pages(Category::Globals, docs.globals, &documented_globals(db), &mut pages);
    let mut nav = NavModel::default();
    nav.site_name = name.clone();
    nav.types = types;
    nav.modules = modules;
    nav.globals = globals;
    assert(page_views(pages@) =~= bare_pages(db@, docs@));
    assert(nav@ =~= raw_nav(db@, docs@, name@));
    sort_nav(&mut nav);
    fill_kind_letters(&mut nav);
    finish_pages(&nav, &mut pages);
    finalize_nav(&mut nav);
    let mut index = HtmlDoc::default();
    index.title = "index".to_string();
    index.name = name;
    index.nav = nav;
    Site { pages, index }
}

/// Adds the pages of a category that are shown, and returns their entries.
fn add_pages(category: Category, docs: Vec<Option<HtmlDoc>>, shown: &Vec<bool>, pages: &mut Vec<Page>) -> (items: Vec<
    NavItem,
>)
    requires
        docs@.len() == shown@.len(),
    ensures
        item_views(items@) == items_of(category, kept(doc_views(docs@), shown@)),
        page_views(final(pages)@) == page_views(old(pages)@) + pages_of(category, kept(doc_views(docs@), shown@)),
{
    let ghost views = doc_views(docs@);
    let ghost start = page_views(pages@);
    let mut docs = docs;
    let mut items: Vec<NavItem> = Vec::new();
    let mut i: usize = 0;
    proof {
        assert(item_views(items@) =~= items_of(category, kept(views.take(0), shown@.take(0))));
        assert(start =~= start + pages_of(category, kept(views.take(0), shown@.take(0))));
    }
    while i < docs.len()
        invariant
            i <= docs@.len(),
            docs@.len() == views.len(),
            docs@.len() == shown@.len(),
            forall|j: int| i <= j < docs@.len() ==> #[trigger] doc_views(docs@)[j] == views[j],
            item_views(items@) == items_of(category, kept(views.take(i as int), shown@.take(i as int))),
            page_views(pages@) == start + pages_of(category, kept(views.take(i as int), shown@.take(i as int))),
        decreases docs.len() - i,
    {
        let ghost before = kept(views.take(i as int), shown@.take(i as int));
        let ghost items_before = items@;
        let ghost pages_before = pages@;
        let ghost docs_before = docs@;
        proof {
            assert(views.take(i + 1).drop_last() =~= views.take(i as int));
            assert(shown@.take(i + 1).drop_last() =~= shown@.take(i as int));
            assert(doc_views(docs@)[i as int] == views[i as int]);
        }
        let taken: Option<HtmlDoc> = docs[i].take();
        if shown[i] {
            if let Some(doc) = taken {
                let kind: &str = match category {
                    Category::Types => doc.kind.as_str(),
                    Category::Modules => "module",
                    Category::Globals => "global",
                };
                let filename = page_path(kind, doc.name.as_str());
                let item_name = match category {
                    Category::Types => {
                        let mut text: String = doc.kind.clone();
                        text.append(" ");
                        text.append(doc.name.as_str());
                        text
                    },
                    _ => doc.name.clone(),
                };
                items.push(
                    NavItem {
                        name: item_name,
                        href: filename.clone(),
                        kind: kind.to_string(),
                        kind_letter: String::new(),
                        short_name: doc.name.clone(),
                        active: false,
                    },
                );
                let ghost view = doc@;
                assert(items@.last()@ =~= item_of(category, view));
                pages.push(Page { filename, doc });
                proof {
                    assert(views[i as int] == Some(view));
                    assert(items_of(category, before.push(view)) =~= items_of(category, before).push(
                        item_of(category, view),
                    ));
                    assert(pages_of(category, before.push(view)) =~= pages_of(category, before).push(
                        page_of(category, view),
                    ));
                    assert(item_views(items@) =~= item_views(items_before).push(item_of(category, view)));
                    assert(page_views(pages@) =~= page_views(pages_before).push(page_of(category, view)));
                }
            }
        }
        proof {
            assert forall|j: int| i + 1 <= j < docs@.len() implies #[trigger] doc_views(docs@)[j] == views[j] by {
                assert(doc_views(docs_before)[j] == views[j]);
            }
        }
        i = i + 1;
    }
    proof {
        assert(views.take(i as int) =~= views);
        assert(shown@.take(i as int) =~= shown@);
    }
    items
}

/// Gives every page its badge and its navigation.
fn finish_pages(base: &NavModel, pages: &mut Vec<Page>)
    ensures
        page_views(final(pages)@) == finished_pages(base@, page_views(old(pages)@)),
{
    let ghost start = pages@;
    let mut i: usize = 0;
    while i < pages.len()
        invariant
            i <= pages@.len(),
            pages@.len() == start.len(),
            forall|j: int|
                0 <= j < i ==> (#[trigger] pages@[j])@ == (PageView {
                    doc: finished_doc(base@, start[j]@.doc),
                    ..start[j]@
                }),
            forall|j: int| i <= j < pages@.len() ==> #[trigger] pages@[j] == start[j],
        decreases pages.len() - i,
    {
        finish_doc(base, &mut pages[i].doc);
        i = i + 1;
    }
    assert(page_views(pages@) =~= finished_pages(base@, page_views(start)));
}

/// Gives a page its badge and its navigation.
pub fn finish_doc(base: &NavModel, doc: &mut HtmlDoc)
    ensures
        final(doc)@ == finished_doc(base@, old(doc)@),
{
    doc.kind_letter = initial_of(doc.kind.as_str(), "?");
    let mut nav = base.clone();
    nav.root_prefix = "../".to_string();
    mark_active(&mut nav, doc.kind.as_str(), doc.name.as_str());
    finalize_nav(&mut nav);
    doc.nav = nav;
}

/// The directories that pages lie in.
pub open spec fn dirs() -> Seq<Seq<char>> {
    seq!["class"@, "enum"@, "alias"@, "module"@, "global"@]
}

/// Returns the directories that pages lie in.
pub fn kind_dirs() -> (names: Vec<&'static str>)
    ensures
        str_views(names@) == dirs(),
{
    let names: Vec<&'static str> = vec!["class", "enum", "alias", "module", "global"];
    assert(str_views(names@) =~= dirs());
    names
}

} // verus!

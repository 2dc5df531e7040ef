//! The values that pages are rendered from, and their mathematical models.

use vstd::prelude::*;
use crate::sort::Keyed;

verus! {

/// An entry of the sidebar.
#[derive(Debug, PartialEq, Eq)]
pub struct NavItem {
    /// What the entry shows; for a type, its kind, a space and its full name.
    pub name: String,
    /// The page of the entry, relative to the root of the site.
    pub href: String,
    /// `class`, `enum`, `alias`, `module` or `global`.
    pub kind: String,
    /// The badge: the first letter of the kind.
    pub kind_letter: String,
    /// The name without the kind.
    pub short_name: String,
    /// Whether this is the page that is being shown.
    pub active: bool,
}

/// The entries that share a leading letter.
#[derive(Debug, PartialEq, Eq)]
pub struct NavGroup {
    pub letter: String,
    /// The letter as a fragment of a link.
    pub anchor: String,
    /// Whether one of the entries is active.
    pub open: bool,
    pub items: Vec<NavItem>,
}

/// A node of the tree of types: a folder for a namespace, or a leaf for a type.
/// A leaf is a node that has a page.
#[derive(Debug, PartialEq, Eq)]
pub struct NavTreeNode {
    pub label: String,
    pub data_name: Option<String>,
    pub kind: String,
    pub href: Option<String>,
    pub active: bool,
    pub open: bool,
    pub children: Vec<NavTreeNode>,
}

/// The navigation of a page.
#[derive(Debug, PartialEq, Eq)]
pub struct NavModel {
    pub site_name: String,
    /// What leads from the page to the root of the site.
    pub root_prefix: String,
    pub types: Vec<NavItem>,
    pub modules: Vec<NavItem>,
    pub globals: Vec<NavItem>,
    pub type_groups: Vec<NavGroup>,
    pub module_groups: Vec<NavGroup>,
    pub global_groups: Vec<NavGroup>,
    pub type_tree: Vec<NavTreeNode>,
    pub sidebar_html: String,
}

/// A field or a method that a page documents.
#[derive(Debug, PartialEq, Eq)]
pub struct DocMember {
    pub name: String,
    /// The name as a fragment of a link.
    pub short_name: String,
}

/// A page of the site.
#[derive(Debug, PartialEq, Eq)]
pub struct HtmlDoc {
    pub title: String,
    pub name: String,
    pub kind: String,
    pub kind_letter: String,
    pub nav: NavModel,
    pub fields: Vec<DocMember>,
    pub methods: Vec<DocMember>,
}

/// A page and the file that it is written to, relative to the root of the site.
#[derive(Debug, PartialEq, Eq)]
pub struct Page {
    pub filename: String,
    pub doc: HtmlDoc,
}

/// The model of a `NavItem`.
#[verifier::ext_equal]
pub struct NavItemView {
    pub name: Seq<char>,
    pub href: Seq<char>,
    pub kind: Seq<char>,
    pub kind_letter: Seq<char>,
    pub short_name: Seq<char>,
    pub active: bool,
}

/// The model of a `NavGroup`.
#[verifier::ext_equal]
pub struct NavGroupView {
    pub letter: Seq<char>,
    pub anchor: Seq<char>,
    pub open: bool,
    pub items: Seq<NavItemView>,
}

/// The model of a `NavTreeNode`.
#[verifier::ext_equal]
pub struct NavTreeView {
    pub label: Seq<char>,
    pub data_name: Option<Seq<char>>,
    pub kind: Seq<char>,
    pub href: Option<Seq<char>>,
    pub active: bool,
    pub open: bool,
    pub children: Seq<NavTreeView>,
}

/// The model of a `NavModel`.
#[verifier::ext_equal]
pub struct NavModelView {
    pub site_name: Seq<char>,
    pub root_prefix: Seq<char>,
    pub types: Seq<NavItemView>,
    pub modules: Seq<NavItemView>,
    pub globals: Seq<NavItemView>,
    pub type_groups: Seq<NavGroupView>,
    pub module_groups: Seq<NavGroupView>,
    pub global_groups: Seq<NavGroupView>,
    pub type_tree: Seq<NavTreeView>,
    pub sidebar_html: Seq<char>,
}

/// The model of a `DocMember`.
#[verifier::ext_equal]
pub struct DocMemberView {
    pub name: Seq<char>,
    pub short_name: Seq<char>,
}

/// The model of an `HtmlDoc`.
#[verifier::ext_equal]
pub struct HtmlDocView {
    pub title: Seq<char>,
    pub name: Seq<char>,
    pub kind: Seq<char>,
    pub kind_letter: Seq<char>,
    pub nav: NavModelView,
    pub fields: Seq<DocMemberView>,
    pub methods: Seq<DocMemberView>,
}

/// The model of a `Page`.
#[verifier::ext_equal]
pub struct PageView {
    pub filename: Seq<char>,
    pub doc: HtmlDocView,
}

impl View for NavItem {
    type V = NavItemView;

    open spec fn view(&self) -> NavItemView {
        NavItemView {
            name: self.name@,
            href: self.href@,
            kind: self.kind@,
            kind_letter: self.kind_letter@,
            short_name: self.short_name@,
            active: self.active,
        }
    }
}

/// The models of entries.
pub open spec fn item_views(items: Seq<NavItem>) -> Seq<NavItemView> {
    items.map_values(|item: NavItem| item@)
}

impl View for NavGroup {
    type V = NavGroupView;

    open spec fn view(&self) -> NavGroupView {
        NavGroupView {
            letter: self.letter@,
            anchor: self.anchor@,
            open: self.open,
            items: item_views(self.items@),
        }
    }
}

/// The models of groups.
pub open spec fn group_views(groups: Seq<NavGroup>) -> Seq<NavGroupView> {
    groups.map_values(|group: NavGroup| group@)
}

/// The view of a piece of text that may be missing.
pub open spec fn option_view(text: Option<String>) -> Option<Seq<char>> {
    match text {
        Some(t) => Some(t@),
        None => None,
    }
}

/// The model of a node.
pub open spec fn node_view(node: NavTreeNode) -> NavTreeView
    decreases node,
{
    NavTreeView {
        label: node.label@,
        data_name: option_view(node.data_name),
        kind: node.kind@,
        href: option_view(node.href),
        active: node.active,
        open: node.open,
        children: forest_view(node.children@),
    }
}

/// The models of nodes.
pub open spec fn forest_view(nodes: Seq<NavTreeNode>) -> Seq<NavTreeView>
    decreases nodes,
{
    Seq::new(
        nodes.len(),
        |i: int|
            if 0 <= i < nodes.len() {
                node_view(nodes[i])
            } else {
                arbitrary()
            },
    )
}

impl View for NavTreeNode {
    type V = NavTreeView;

    open spec fn view(&self) -> NavTreeView {
        node_view(*self)
    }
}

impl View for NavModel {
    type V = NavModelView;

    open spec fn view(&self) -> NavModelView {
        NavModelView {
            site_name: self.site_name@,
            root_prefix: self.root_prefix@,
            types: item_views(self.types@),
            modules: item_views(self.modules@),
            globals: item_views(self.globals@),
            type_groups: group_views(self.type_groups@),
            module_groups: group_views(self.module_groups@),
            global_groups: group_views(self.global_groups@),
            type_tree: forest_view(self.type_tree@),
            sidebar_html: self.sidebar_html@,
        }
    }
}

impl View for DocMember {
    type V = DocMemberView;

    open spec fn view(&self) -> DocMemberView {
        DocMemberView { name: self.name@, short_name: self.short_name@ }
    }
}

/// The models of members.
pub open spec fn member_views(members: Seq<DocMember>) -> Seq<DocMemberView> {
    members.map_values(|member: DocMember| member@)
}

impl View for HtmlDoc {
    type V = HtmlDocView;

    open spec fn view(&self) -> HtmlDocView {
        HtmlDocView {
            title: self.title@,
            name: self.name@,
            kind: self.kind@,
            kind_letter: self.kind_letter@,
            nav: self.nav@,
            fields: member_views(self.fields@),
            methods: member_views(self.methods@),
        }
    }
}

impl View for Page {
    type V = PageView;

    open spec fn view(&self) -> PageView {
        PageView { filename: self.filename@, doc: self.doc@ }
    }
}

/// The models of pages.
pub open spec fn page_views(pages: Seq<Page>) -> Seq<PageView> {
    pages.map_values(|page: Page| page@)
}

/// The navigation of a site without entries.
pub open spec fn empty_nav() -> NavModelView {
    NavModelView {
        site_name: Seq::empty(),
        root_prefix: Seq::empty(),
        types: Seq::empty(),
        modules: Seq::empty(),
        globals: Seq::empty(),
        type_groups: Seq::empty(),
        module_groups: Seq::empty(),
        global_groups: Seq::empty(),
        type_tree: Seq::empty(),
        sidebar_html: Seq::empty(),
    }
}

/// The page that holds nothing.
pub open spec fn empty_doc() -> HtmlDocView {
    HtmlDocView {
        title: Seq::empty(),
        name: Seq::empty(),
        kind: Seq::empty(),
        kind_letter: Seq::empty(),
        nav: empty_nav(),
        fields: Seq::empty(),
        methods: Seq::empty(),
    }
}

impl Default for NavModel {
    fn default() -> (nav: Self)
        ensures
            nav@ == empty_nav(),
    {
        NavModel {
            site_name: String::new(),
            root_prefix: String::new(),
            types: Vec::new(),
            modules: Vec::new(),
            globals: Vec::new(),
            type_groups: Vec::new(),
            module_groups: Vec::new(),
            global_groups: Vec::new(),
            type_tree: Vec::new(),
            sidebar_html: String::new(),
        }
    }
}

impl Default for HtmlDoc {
    fn default() -> (doc: Self)
        ensures
            doc@ == empty_doc(),
    {
        HtmlDoc {
            title: String::new(),
            name: String::new(),
            kind: String::new(),
            kind_letter: String::new(),
            nav: NavModel::default(),
            fields: Vec::new(),
            methods: Vec::new(),
        }
    }
}

impl Clone for NavItem {
    fn clone(&self) -> (item: Self)
        ensures
            item@ == self@,
    {
        NavItem {
            name: self.name.clone(),
            href: self.href.clone(),
            kind: self.kind.clone(),
            kind_letter: self.kind_letter.clone(),
            short_name: self.short_name.clone(),
            active: self.active,
        }
    }
}

impl Clone for NavGroup {
    fn clone(&self) -> (group: Self)
        ensures
            group@ == self@,
    {
        let items = self.items.clone();
        assert(item_views(items@) == item_views(self.items@));
        NavGroup { letter: self.letter.clone(), anchor: self.anchor.clone(), open: self.open, items }
    }
}

impl Clone for NavTreeNode {
    fn clone(&self) -> (node: Self)
        ensures
            node@ == self@,
        decreases self,
    {
        NavTreeNode {
            label: self.label.clone(),
            data_name: clone_text(&self.data_name),
            kind: self.kind.clone(),
            href: clone_text(&self.href),
            active: self.active,
            open: self.open,
            children: clone_forest(&self.children),
        }
    }
}

fn clone_text(text: &Option<String>) -> (copy: Option<String>)
    ensures
        option_view(copy) == option_view(*text),
{
    match text {
        Some(t) => Some(t.clone()),
        None => None,
    }
}

fn clone_forest(nodes: &Vec<NavTreeNode>) -> (copy: Vec<NavTreeNode>)
    ensures
        forest_view(copy@) == forest_view(nodes@),
    decreases nodes,
{
    let mut copy: Vec<NavTreeNode> = Vec::new();
    let mut i: usize = 0;
    while i < nodes.len()
        invariant
            i <= nodes.len(),
            copy.len() == i,
            forall|j: int| 0 <= j < i ==> node_view(#[trigger] copy@[j]) == node_view(nodes@[j]),
        decreases nodes.len() - i,
    {
        copy.push(nodes[i].clone());
        i = i + 1;
    }
    copy
}

impl Clone for NavModel {
    fn clone(&self) -> (nav: Self)
        ensures
            nav@ == self@,
    {
        let types = self.types.clone();
        let modules = self.modules.clone();
        let globals = self.globals.clone();
        let type_groups = self.type_groups.clone();
        let module_groups = self.module_groups.clone();
        let global_groups = self.global_groups.clone();
        proof {
            assert(item_views(types@) == item_views(self.types@));
            assert(item_views(modules@) == item_views(self.modules@));
            assert(item_views(globals@) == item_views(self.globals@));
            assert(group_views(type_groups@) == group_views(self.type_groups@));
            assert(group_views(module_groups@) == group_views(self.module_groups@));
            assert(group_views(global_groups@) == group_views(self.global_groups@));
        }
        NavModel {
            site_name: self.site_name.clone(),
            root_prefix: self.root_prefix.clone(),
            types,
            modules,
            globals,
            type_groups,
            module_groups,
            global_groups,
            type_tree: clone_forest(&self.type_tree),
            sidebar_html: self.sidebar_html.clone(),
        }
    }
}

impl Keyed for NavItem {
    open spec fn key(&self) -> Seq<char> {
        self.name@
    }

    fn key_text(&self) -> (text: &str) {
        self.name.as_str()
    }
}

impl Keyed for NavTreeNode {
    open spec fn key(&self) -> Seq<char> {
        self.label@
    }

    fn key_text(&self) -> (text: &str) {
        self.label.as_str()
    }
}

/// By default a page holds nothing: it has no text, no entries and no members.
pub proof fn law_defaults_hold_nothing()
    ensures
        ({
            let (doc, nav) = (empty_doc(), empty_nav());
            &&& doc.title.len() == 0 && doc.name.len() == 0 && doc.kind.len() == 0 && doc.kind_letter.len() == 0
            &&& doc.fields.len() == 0 && doc.methods.len() == 0
            &&& doc.nav == nav
            &&& nav.site_name.len() == 0 && nav.root_prefix.len() == 0 && nav.sidebar_html.len() == 0
            &&& nav.types.len() == 0 && nav.modules.len() == 0 && nav.globals.len() == 0
            &&& nav.type_groups.len() == 0 && nav.module_groups.len() == 0 && nav.global_groups.len() == 0
            &&& nav.type_tree.len() == 0
        }),
{
}

/// The model of an entry keeps all that it says.
pub proof fn law_item_model_is_faithful(item: NavItem)
    ensures
        item@.name == item.name@,
        item@.href == item.href@,
        item@.kind == item.kind@,
        item@.kind_letter == item.kind_letter@,
        item@.short_name == item.short_name@,
        item@.active == item.active,
{
}

/// The model of a group keeps all that it says, its entries in their order.
pub proof fn law_group_model_is_faithful(group: NavGroup)
    ensures
        group@.letter == group.letter@,
        group@.anchor == group.anchor@,
        group@.open == group.open,
        group@.items.len() == group.items@.len(),
        forall|i: int| 0 <= i < group.items@.len() ==> #[trigger] group@.items[i] == group.items@[i]@,
{
}

/// The model of a node keeps all that it says, its children in their order.
pub proof fn law_node_model_is_faithful(node: NavTreeNode)
    ensures
        node@.label == node.label@,
        node@.data_name is Some <==> node.data_name is Some,
        node.data_name is Some ==> node@.data_name->0 == node.data_name->0@,
        node@.kind == node.kind@,
        node@.href is Some <==> node.href is Some,
        node.href is Some ==> node@.href->0 == node.href->0@,
        node@.active == node.active,
        node@.open == node.open,
        node@.children.len() == node.children@.len(),
        forall|i: int| 0 <= i < node.children@.len() ==> #[trigger] node@.children[i] == node.children@[i]@,
{
}

/// The models of nodes are those of each, in their order.
pub proof fn law_forest_model_is_faithful(nodes: Seq<NavTreeNode>)
    ensures
        forest_view(nodes).len() == nodes.len(),
        forall|i: int| 0 <= i < nodes.len() ==> #[trigger] forest_view(nodes)[i] == nodes[i]@,
{
}

/// The models of entries are those of each, in their order.
pub proof fn law_item_models_are_faithful(items: Seq<NavItem>)
    ensures
        item_views(items).len() == items.len(),
        forall|i: int| 0 <= i < items.len() ==> #[trigger] item_views(items)[i] == items[i]@,
{
}

/// The models of groups are those of each, in their order.
pub proof fn law_group_models_are_faithful(groups: Seq<NavGroup>)
    ensures
        group_views(groups).len() == groups.len(),
        forall|i: int| 0 <= i < groups.len() ==> #[trigger] group_views(groups)[i] == groups[i]@,
{
}

/// The model of the navigation keeps all that it says.
pub proof fn law_nav_model_is_faithful(nav: NavModel)
    ensures
        nav@.site_name == nav.site_name@,
        nav@.root_prefix == nav.root_prefix@,
        nav@.types == item_views(nav.types@),
        nav@.modules == item_views(nav.modules@),
        nav@.globals == item_views(nav.globals@),
        nav@.type_groups == group_views(nav.type_groups@),
        nav@.module_groups == group_views(nav.module_groups@),
        nav@.global_groups == group_views(nav.global_groups@),
        nav@.type_tree == forest_view(nav.type_tree@),
        nav@.sidebar_html == nav.sidebar_html@,
{
}

/// The model of a page keeps all that it says, its members in their order.
pub proof fn law_doc_model_is_faithful(doc: HtmlDoc)
    ensures
        doc@.title == doc.title@,
        doc@.name == doc.name@,
        doc@.kind == doc.kind@,
        doc@.kind_letter == doc.kind_letter@,
        doc@.nav == doc.nav@,
        doc@.fields.len() == doc.fields@.len(),
        doc@.methods.len() == doc.methods@.len(),
        forall|i: int|
            0 <= i < doc.fields@.len() ==> (#[trigger] doc@.fields[i]).name == doc.fields@[i].name@
                && doc@.fields[i].short_name == doc.fields@[i].short_name@,
        forall|i: int|
            0 <= i < doc.methods@.len() ==> (#[trigger] doc@.methods[i]).name == doc.methods@[i].name@
                && doc@.methods[i].short_name == doc.methods@[i].short_name@,
{
}

/// The models of pages keep their files and what they say, in their order.
pub proof fn law_page_models_are_faithful(pages: Seq<Page>)
    ensures
        page_views(pages).len() == pages.len(),
        forall|i: int|
            0 <= i < pages.len() ==> (#[trigger] page_views(pages)[i]).filename == pages[i].filename@
                && page_views(pages)[i].doc == pages[i].doc@,
{
}

} // verus!

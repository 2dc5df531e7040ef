use emmylua_doc_html::groups::build_groups;
use emmylua_doc_html::nav::{fill_kind_letters, finalize_nav, mark_active, sort_nav};
use emmylua_doc_html::render::{
    build_sidebar_html, category_header, kind_badge, render_flat_item, render_tree_html,
};
use emmylua_doc_html::tree::{build_type_tree, insert_tree, set_open, sort_tree};
use emmylua_doc_html::types::{HtmlDoc, NavItem, NavModel, NavTreeNode};

fn item(name: &str, href: &str, kind: &str, short_name: &str) -> NavItem {
    NavItem {
        name: name.to_string(),
        href: href.to_string(),
        kind: kind.to_string(),
        kind_letter: String::new(),
        short_name: short_name.to_string(),
        active: false,
    }
}

fn type_item(kind: &str, name: &str) -> NavItem {
    item(&format!("{} {}", kind, name), &format!("{}/{}.html", kind, name), kind, name)
}

fn names(items: &[NavItem]) -> Vec<&str> {
    items.iter().map(|i| i.name.as_str()).collect()
}

fn nav() -> NavModel {
    NavModel {
        site_name: "S".to_string(),
        types: vec![type_item("enum", "b.C"), type_item("class", "b.A"), type_item("class", "Z")],
        modules: vec![item("util", "module/util.html", "module", "util"), item("base", "module/base.html", "module", "base")],
        globals: vec![item("print", "global/print.html", "global", "print")],
        ..Default::default()
    }
}

fn folder(label: &str, open: bool, children: Vec<NavTreeNode>) -> NavTreeNode {
    NavTreeNode {
        label: label.to_string(),
        data_name: None,
        kind: String::new(),
        href: None,
        active: false,
        open,
        children,
    }
}

fn leaf(label: &str, item: &NavItem, kind: &str) -> NavTreeNode {
    NavTreeNode {
        label: label.to_string(),
        data_name: Some(item.name.clone()),
        kind: kind.to_string(),
        href: Some(item.href.clone()),
        active: item.active,
        open: false,
        children: Vec::new(),
    }
}

#[test]
fn defaults_are_empty() {
    let nav = NavModel::default();
    assert_eq!(nav.site_name, "");
    assert!(nav.types.is_empty() && nav.type_tree.is_empty() && nav.sidebar_html.is_empty());
    assert_eq!(HtmlDoc::default().nav, nav);
}

#[test]
fn entries_are_sorted_by_name() {
    let mut nav = nav();
    sort_nav(&mut nav);
    assert_eq!(names(&nav.types), vec!["class Z", "class b.A", "enum b.C"]);
    assert_eq!(names(&nav.modules), vec!["base", "util"]);
    assert_eq!(names(&nav.globals), vec!["print"]);
    let once = nav.clone();
    sort_nav(&mut nav);
    assert_eq!(nav, once);
}

#[test]
fn sorting_is_stable() {
    let mut nav = NavModel {
        globals: vec![
            item("b", "1", "global", "b"),
            item("a", "2", "global", "a"),
            item("b", "3", "global", "b"),
            item("a", "4", "global", "a"),
            item("b", "5", "global", "b"),
        ],
        ..Default::default()
    };
    sort_nav(&mut nav);
    let hrefs: Vec<&str> = nav.globals.iter().map(|i| i.href.as_str()).collect();
    assert_eq!(hrefs, vec!["2", "4", "1", "3", "5"]);
}

#[test]
fn the_order_of_declarations_does_not_show() {
    let mut a = nav();
    let mut b = nav();
    b.types.reverse();
    b.modules.reverse();
    for n in [&mut a, &mut b] {
        sort_nav(n);
        fill_kind_letters(n);
        finalize_nav(n);
    }
    assert_eq!(a, b);
}

#[test]
fn badges_are_first_letters_of_kinds() {
    let mut nav = nav();
    nav.types.push(item("x", "x", "", "x"));
    fill_kind_letters(&mut nav);
    let letters: Vec<&str> = nav.types.iter().map(|i| i.kind_letter.as_str()).collect();
    assert_eq!(letters, vec!["E", "C", "C", ""]);
    assert_eq!(nav.modules[0].kind_letter, "M");
    assert_eq!(nav.globals[0].kind_letter, "G");
}

fn active(nav: &NavModel) -> Vec<&str> {
    nav.types
        .iter()
        .chain(nav.modules.iter())
        .chain(nav.globals.iter())
        .filter(|i| i.active)
        .map(|i| i.name.as_str())
        .collect()
}

#[test]
fn one_entry_becomes_active() {
    let mut of_type = nav();
    mark_active(&mut of_type, "class", "b.A");
    assert_eq!(active(&of_type), vec!["class b.A"]);
    let mut of_module = nav();
    mark_active(&mut of_module, "module", "util");
    assert_eq!(active(&of_module), vec!["util"]);
    let mut of_global = nav();
    mark_active(&mut of_global, "global", "print");
    assert_eq!(active(&of_global), vec!["print"]);
    let mut of_none = nav();
    mark_active(&mut of_none, "class", "util");
    assert_eq!(of_none, nav());
}

#[test]
fn the_entry_of_the_page_becomes_active() {
    let mut nav = nav();
    nav.globals.push(item("util", "global/util.html", "global", "util"));
    mark_active(&mut nav, "global", "util");
    assert!(nav.globals[1].active);
    assert!(!nav.modules[0].active);
    assert_eq!(active(&nav).len(), 1);
}

#[test]
fn a_module_and_a_global_of_one_name_are_told_apart() {
    let mut nav = NavModel {
        modules: vec![item("foo", "m", "module", "foo")],
        globals: vec![item("foo", "g", "global", "foo")],
        ..Default::default()
    };
    let mut other = nav.clone();
    mark_active(&mut nav, "global", "foo");
    assert!(nav.globals[0].active);
    assert!(!nav.modules[0].active);
    mark_active(&mut other, "module", "foo");
    assert!(other.modules[0].active);
    assert!(!other.globals[0].active);
}

#[test]
fn a_page_is_not_marked_among_pages_of_another_kind() {
    let mut nav = NavModel {
        modules: vec![item("class A", "m", "module", "class A")],
        ..Default::default()
    };
    mark_active(&mut nav, "class", "A");
    assert!(!nav.modules[0].active);
    nav.types.push(type_item("class", "A"));
    nav.types.push(type_item("class", "A"));
    mark_active(&mut nav, "class", "A");
    assert!(nav.types[0].active);
    assert!(!nav.types[1].active);
    assert!(!nav.modules[0].active);
}

#[test]
fn entries_are_grouped_by_letter() {
    let mut items = vec![
        type_item("class", "beta"),
        type_item("enum", "Bold"),
        type_item("class", "_x"),
        type_item("alias", "a"),
        item("9", "module/9.html", "module", "9"),
    ];
    items[2].active = true;
    let groups = build_groups(&items);
    let heads: Vec<(&str, &str, bool)> =
        groups.iter().map(|g| (g.letter.as_str(), g.anchor.as_str(), g.open)).collect();
    assert_eq!(heads, vec![("B", "B", false), ("#", "num", true), ("A", "A", false)]);
    assert_eq!(names(&groups[0].items), vec!["class beta", "enum Bold"]);
    assert_eq!(names(&groups[1].items), vec!["class _x", "9"]);
    assert_eq!(names(&groups[2].items), vec!["alias a"]);
    assert_eq!(groups.iter().map(|g| g.items.len()).sum::<usize>(), items.len());
    assert!(build_groups(&[]).is_empty());
}

#[test]
fn types_become_a_tree() {
    let mut items = vec![
        type_item("class", "lsp.CodeActionKind"),
        type_item("class", "lsp"),
        type_item("enum", "lsp.a.B"),
        type_item("alias", "Top"),
    ];
    items[2].active = true;
    let tree = build_type_tree(&items);
    assert_eq!(
        tree,
        vec![
            leaf("Top", &items[3], "alias"),
            folder(
                "lsp",
                true,
                vec![
                    leaf("CodeActionKind", &items[0], "class"),
                    folder("a", true, vec![leaf("B", &items[2], "enum")]),
                ],
            ),
            leaf("lsp", &items[1], "class"),
        ]
    );
    assert!(build_type_tree(&[]).is_empty());
}

#[test]
fn the_order_of_types_does_not_show_in_the_tree() {
    let items = vec![
        type_item("class", "b.x.A"),
        type_item("enum", "a"),
        type_item("alias", "b.x.B"),
        type_item("class", "b.C"),
    ];
    let tree = build_type_tree(&items);
    let reversed: Vec<NavItem> = items.iter().rev().cloned().collect();
    assert_eq!(build_type_tree(&reversed), tree);
    let rotated: Vec<NavItem> = items.iter().cycle().skip(2).take(4).cloned().collect();
    assert_eq!(build_type_tree(&rotated), tree);
}

#[test]
fn a_type_and_a_namespace_of_one_name_keep_their_order() {
    let items = vec![type_item("class", "n"), type_item("class", "n.A")];
    let tree = build_type_tree(&items);
    assert!(tree[0].href.is_some() && tree[1].href.is_none());
    let reversed = vec![items[1].clone(), items[0].clone()];
    let tree = build_type_tree(&reversed);
    assert!(tree[0].href.is_none() && tree[1].href.is_some());
}

#[test]
fn folders_are_shared_and_leaves_are_not() {
    let a = type_item("class", "n.A");
    let b = type_item("class", "n.B");
    let mut roots: Vec<NavTreeNode> = Vec::new();
    insert_tree(&mut roots, &["n", "A"], &a, "class");
    insert_tree(&mut roots, &["n", "B"], &b, "enum");
    insert_tree(&mut roots, &["n"], &a, "class");
    insert_tree(&mut roots, &["n"], &a, "class");
    assert_eq!(
        roots,
        vec![
            folder("n", false, vec![leaf("A", &a, "class"), leaf("B", &b, "enum")]),
            leaf("n", &a, "class"),
            leaf("n", &a, "class"),
        ]
    );
}

#[test]
fn trees_are_sorted_at_every_level() {
    let a = type_item("class", "A");
    let mut roots = vec![
        leaf("z", &a, "class"),
        folder("m", false, vec![leaf("c", &a, "class"), leaf("b", &a, "class")]),
        leaf("a", &a, "class"),
    ];
    sort_tree(&mut roots);
    assert_eq!(
        roots,
        vec![
            leaf("a", &a, "class"),
            folder("m", false, vec![leaf("b", &a, "class"), leaf("c", &a, "class")]),
            leaf("z", &a, "class"),
        ]
    );
}

#[test]
fn folders_open_on_the_active_branch() {
    let quiet = type_item("class", "A");
    let mut marked = type_item("class", "B");
    marked.active = true;
    let mut roots = vec![
        folder("p", false, vec![folder("q", false, vec![leaf("B", &marked, "class")])]),
        folder("r", false, vec![leaf("A", &quiet, "class")]),
    ];
    assert!(set_open(&mut roots));
    assert!(roots[0].open && roots[0].children[0].open);
    assert!(!roots[0].children[0].children[0].open);
    assert!(!roots[1].open);
    let mut none = vec![folder("r", false, vec![leaf("A", &quiet, "class")])];
    assert!(!set_open(&mut none));
    assert!(!none[0].open);
}

#[test]
fn headers_show_title_and_count() {
    assert_eq!(
        category_header("Types", 12),
        "<div class=\"sidebar-category\"><div class=\"category-title\">Types<span class=\"category-count\">12</span></div><ul>"
    );
}

#[test]
fn badges_of_kinds() {
    assert_eq!(kind_badge("class"), "C");
    assert_eq!(kind_badge("enum"), "E");
    assert_eq!(kind_badge("alias"), "A");
    assert_eq!(kind_badge("module"), "T");
    assert_eq!(kind_badge(""), "T");
}

#[test]
fn flat_entries_are_links() {
    let mut entry = item("a<b", "module/a_b.html", "module", "a<b");
    assert_eq!(
        render_flat_item(&entry, "../"),
        "<li><a data-name=\"a&lt;b\" href=\"../module/a_b.html\" class=\"nav-item\">a&lt;b</a></li>"
    );
    entry.active = true;
    assert_eq!(
        render_flat_item(&entry, ""),
        "<li><a data-name=\"a&lt;b\" href=\"module/a_b.html\" class=\"nav-item active\">a&lt;b</a></li>"
    );
}

#[test]
fn trees_are_nested_lists() {
    let mut entry = type_item("enum", "n.E");
    entry.active = true;
    let tree = vec![folder("n", true, vec![leaf("E", &entry, "enum")]), folder("o", false, Vec::new())];
    assert_eq!(
        render_tree_html(&tree, "../"),
        "<li><details open><summary class=\"group-label\"><span class=\"group-caret\" aria-hidden=\"true\"></span><span class=\"nav-label\">n</span></summary><ul><li><a data-name=\"enum n.E\" href=\"../enum/n.E.html\" class=\"nav-item active\"><span class=\"kind-badge kind-enum\" aria-hidden=\"true\">E</span><span class=\"nav-label\">E</span></a></li></ul></details></li><li><details><summary class=\"group-label\"><span class=\"group-caret\" aria-hidden=\"true\"></span><span class=\"nav-label\">o</span></summary><ul></ul></details></li>"
    );
    let mut bare = leaf("L", &type_item("class", "L"), "class");
    bare.data_name = None;
    assert_eq!(
        render_tree_html(&[bare], ""),
        "<li><a data-name=\"L\" href=\"class/L.html\" class=\"nav-item\"><span class=\"kind-badge kind-class\" aria-hidden=\"true\">C</span><span class=\"nav-label\">L</span></a></li>"
    );
    assert_eq!(render_tree_html(&[], "../"), "");
}

#[test]
fn the_sidebar_shows_categories_that_have_entries() {
    assert_eq!(build_sidebar_html(&NavModel::default()), "");
    let mut nav = NavModel {
        root_prefix: "../".to_string(),
        types: vec![type_item("class", "A")],
        globals: vec![item("g", "global/g.html", "global", "g")],
        ..Default::default()
    };
    finalize_nav(&mut nav);
    let wanted = format!(
        "{}{}</ul></div>{}{}</ul></div>",
        category_header("Types", 1),
        render_tree_html(&nav.type_tree, "../"),
        category_header("Globals", 1),
        render_flat_item(&nav.globals[0], "../"),
    );
    assert_eq!(nav.sidebar_html, wanted);
}

#[test]
fn deriving_twice_changes_nothing() {
    let mut nav = nav();
    finalize_nav(&mut nav);
    assert_eq!(nav.type_groups.len(), 2);
    assert_eq!(nav.module_groups.len(), 2);
    assert_eq!(nav.global_groups.len(), 1);
    let once = nav.clone();
    finalize_nav(&mut nav);
    assert_eq!(nav, once);
}

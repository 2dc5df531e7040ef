//! What holds of the sidebar as HTML.

use vstd::prelude::*;
use crate::render::{
    badge, category_html, escaped, flat_item_html, flat_items_html, header_html, link_html, node_html, sidebar,
    tree_html,
};
use crate::text::digits;
use crate::tree_laws::{leaves, Leaf};
use crate::tree_order::{lemma_leaf_path, lemma_leaf_source};
use crate::types::{NavItemView, NavModelView, NavTreeView};

verus! {

/// Escaping goes character by character: markup characters become entities, all
/// others stay.
pub proof fn law_escaping_goes_by_character(s: Seq<char>, c: char)
    ensures
        escaped(Seq::empty()).len() == 0,
        escaped(s.push(c)) == escaped(s) + (if c == '&' {
            seq!['&', 'a', 'm', 'p', ';']
        } else if c == '<' {
            seq!['&', 'l', 't', ';']
        } else if c == '>' {
            seq!['&', 'g', 't', ';']
        } else if c == '"' {
            seq!['&', 'q', 'u', 'o', 't', ';']
        } else {
            seq![c]
        }),
{
    reveal_strlit("&amp;");
    reveal_strlit("&lt;");
    reveal_strlit("&gt;");
    reveal_strlit("&quot;");
    assert(s.push(c).drop_last() =~= s);
    assert("&amp;"@ =~= seq!['&', 'a', 'm', 'p', ';']);
    assert("&lt;"@ =~= seq!['&', 'l', 't', ';']);
    assert("&gt;"@ =~= seq!['&', 'g', 't', ';']);
    assert("&quot;"@ =~= seq!['&', 'q', 'u', 'o', 't', ';']);
}

/// Whether `piece` stands in `text` at `i`.
pub open spec fn stands_at(text: Seq<char>, piece: Seq<char>, i: int) -> bool {
    0 <= i && i + piece.len() <= text.len() && text.subrange(i, i + piece.len()) == piece
}

/// Whether `piece` stands somewhere in `text`, as one piece.
pub open spec fn holds(text: Seq<char>, piece: Seq<char>) -> bool {
    exists|i: int| stands_at(text, piece, i)
}

/// What stands in the middle of three texts stands in the whole.
proof fn lemma_holds_within(a: Seq<char>, b: Seq<char>, c: Seq<char>, piece: Seq<char>)
    requires
        holds(b, piece),
    ensures
        holds(a + b + c, piece),
{
    let i = choose|i: int| stands_at(b, piece, i);
    let whole = a + b + c;
    assert(whole.subrange(a.len() + i, a.len() + i + piece.len()) =~= b.subrange(i, i + piece.len()));
    assert(stands_at(whole, piece, a.len() + i));
}

/// The link to a page: what its entry is called, where it is from this page, and
/// whether it is this page.
pub open spec fn link_to(name: Seq<char>, prefix: Seq<char>, href: Seq<char>, active: bool) -> Seq<char> {
    let class = if active {
        "nav-item active"@
    } else {
        "nav-item"@
    };
    "<a data-name=\""@ + escaped(name) + "\" href=\""@ + prefix + escaped(href) + "\" class=\""@ + class + "\">"@
}

/// An entry of a list of modules or globals.
pub open spec fn listed_entry(item: NavItemView, prefix: Seq<char>) -> Seq<char> {
    "<li>"@ + link_to(item.name, prefix, item.href, item.active) + escaped(item.name) + "</a></li>"@
}

/// The letter of a badge.
pub open spec fn letter_for(kind: Seq<char>) -> char {
    if kind == "class"@ {
        'C'
    } else if kind == "enum"@ {
        'E'
    } else if kind == "alias"@ {
        'A'
    } else {
        'T'
    }
}

/// An entry of the tree of types.
pub open spec fn tree_entry(
    name: Seq<char>,
    prefix: Seq<char>,
    href: Seq<char>,
    active: bool,
    kind: Seq<char>,
    label: Seq<char>,
) -> Seq<char> {
    "<li>"@ + link_to(name, prefix, href, active) + "<span class=\"kind-badge kind-"@ + escaped(kind)
        + "\" aria-hidden=\"true\">"@ + seq![letter_for(kind)] + "</span><span class=\"nav-label\">"@ + escaped(label)
        + "</span></a></li>"@
}

/// The start of a folder.
pub open spec fn folder_start(label: Seq<char>, open: bool) -> Seq<char> {
    let tag = if open {
        "<li><details open>"@
    } else {
        "<li><details>"@
    };
    tag + "<summary class=\"group-label\"><span class=\"group-caret\" aria-hidden=\"true\"></span><span class=\"nav-label\">"@
        + escaped(label) + "</span></summary><ul>"@
}

/// The start of a category.
pub open spec fn category_start(title: Seq<char>, count: nat) -> Seq<char> {
    "<div class=\"sidebar-category\"><div class=\"category-title\">"@ + title + "<span class=\"category-count\">"@
        + digits(count) + "</span></div><ul>"@
}

proof fn lemma_link(name: Seq<char>, prefix: Seq<char>, href: Seq<char>, active: bool)
    ensures
        link_html(name, prefix, href, active) == "<li>"@ + link_to(name, prefix, href, active),
{
    reveal_strlit("<li><a data-name=\"");
    reveal_strlit("<li>");
    reveal_strlit("<a data-name=\"");
    assert("<li><a data-name=\""@ =~= "<li>"@ + "<a data-name=\""@);
    reveal_strlit("\" class=\"nav-item");
    reveal_strlit("\" class=\"");
    reveal_strlit("nav-item");
    reveal_strlit("nav-item active");
    reveal_strlit(" active");
    reveal_strlit("");
    let class = if active {
        "nav-item active"@
    } else {
        "nav-item"@
    };
    let added = if active {
        " active"@
    } else {
        ""@
    };
    assert("\" class=\"nav-item"@ + added =~= "\" class=\""@ + class);
    assert(link_html(name, prefix, href, active) =~= "<li><a data-name=\""@ + escaped(name) + "\" href=\""@ + prefix
        + escaped(href) + ("\" class=\"nav-item"@ + added) + "\">"@);
    assert("<li>"@ + link_to(name, prefix, href, active) =~= "<li>"@ + "<a data-name=\""@ + escaped(name)
        + "\" href=\""@ + prefix + escaped(href) + ("\" class=\""@ + class) + "\">"@);
}

/// A module or a global is listed with a link under its name.
pub proof fn law_flat_entries_are_links(item: NavItemView, prefix: Seq<char>)
    ensures
        flat_item_html(item, prefix) == listed_entry(item, prefix),
{
    lemma_link(item.name, prefix, item.href, item.active);
}

/// Flat lists hold an entry for each item, in their order, and nothing else.
pub proof fn law_flat_lists_hold_each_entry(a: Seq<NavItemView>, item: NavItemView, prefix: Seq<char>)
    ensures
        flat_items_html(Seq::empty(), prefix).len() == 0,
        flat_items_html(a.push(item), prefix) == flat_items_html(a, prefix) + listed_entry(item, prefix),
{
    law_flat_entries_are_links(item, prefix);
    assert(a.push(item).drop_last() =~= a);
}

/// A category begins with its title and the number of its entries.
pub proof fn law_header_shows_title_and_count(title: Seq<char>, count: nat)
    ensures
        header_html(title, count) == category_start(title, count),
{
}

/// Badges are the first letters of the kinds of types, and T for any other kind.
pub proof fn law_badge_is_the_letter_of_the_kind(kind: Seq<char>)
    ensures
        badge(kind) == seq![letter_for(kind)],
{
    reveal_strlit("C");
    reveal_strlit("E");
    reveal_strlit("A");
    reveal_strlit("T");
    assert("C"@ =~= seq!['C']);
    assert("E"@ =~= seq!['E']);
    assert("A"@ =~= seq!['A']);
    assert("T"@ =~= seq!['T']);
}

/// A node with a page is a link with a badge and a label. It goes by its label
/// where it has no name.
pub proof fn law_leaves_are_links(node: NavTreeView, prefix: Seq<char>)
    requires
        node.href is Some,
    ensures
        node_html(node, prefix) == tree_entry(
            if node.data_name is Some {
                node.data_name->0
            } else {
                node.label
            },
            prefix,
            node.href->0,
            node.active,
            node.kind,
            node.label,
        ),
{
    let name = if node.data_name is Some {
        node.data_name->0
    } else {
        node.label
    };
    lemma_link(name, prefix, node.href->0, node.active);
    law_badge_is_the_letter_of_the_kind(node.kind);
}

/// A node without a page is a folder, open or closed, around what is in it.
pub proof fn law_folders_enclose_their_children(node: NavTreeView, prefix: Seq<char>)
    requires
        node.href is None,
    ensures
        node_html(node, prefix) == folder_start(node.label, node.open) + tree_html(node.children, prefix)
            + "</ul></details></li>"@,
{
    reveal_strlit("<li><details");
    reveal_strlit(" open");
    reveal_strlit("");
    reveal_strlit("<li><details open>");
    reveal_strlit("<li><details>");
    reveal_strlit(
        "><summary class=\"group-label\"><span class=\"group-caret\" aria-hidden=\"true\"></span><span class=\"nav-label\">",
    );
    reveal_strlit(
        "<summary class=\"group-label\"><span class=\"group-caret\" aria-hidden=\"true\"></span><span class=\"nav-label\">",
    );
    let long =
        "><summary class=\"group-label\"><span class=\"group-caret\" aria-hidden=\"true\"></span><span class=\"nav-label\">"@;
    let short =
        "<summary class=\"group-label\"><span class=\"group-caret\" aria-hidden=\"true\"></span><span class=\"nav-label\">"@;
    let mark = if node.open {
        " open"@
    } else {
        ""@
    };
    let tag = if node.open {
        "<li><details open>"@
    } else {
        "<li><details>"@
    };
    assert(long =~= seq!['>'] + short);
    assert("<li><details"@ + mark + seq!['>'] =~= tag);
    assert("<li><details"@ + mark + long =~= tag + short);
    assert(node_html(node, prefix) =~= ("<li><details"@ + mark + long) + escaped(node.label)
        + "</span></summary><ul>"@ + tree_html(node.children, prefix) + "</ul></details></li>"@);
}

/// The nodes of a level come one after the other, and nothing else.
pub proof fn law_levels_hold_each_node(nodes: Seq<NavTreeView>, node: NavTreeView, prefix: Seq<char>)
    ensures
        tree_html(Seq::empty(), prefix).len() == 0,
        tree_html(nodes.push(node), prefix) == tree_html(nodes, prefix) + node_html(node, prefix),
{
    assert(nodes.push(node).drop_last() =~= nodes);
}

/// The HTML of a tree holds, for every leaf at whatever depth, its link with its
/// badge and its label.
pub proof fn law_tree_html_links_every_leaf(
    nodes: Seq<NavTreeView>,
    above: Seq<Seq<char>>,
    x: Leaf,
    prefix: Seq<char>,
)
    requires
        leaves(nodes, above).count(x) > 0,
        x.data_name is Some,
        x.href is Some,
    ensures
        x.path.len() > 0,
        holds(
            tree_html(nodes, prefix),
            tree_entry(x.data_name->0, prefix, x.href->0, x.active, x.kind, x.path.last()),
        ),
    decreases nodes,
{
    let piece = tree_entry(x.data_name->0, prefix, x.href->0, x.active, x.kind, x.path.last());
    let i = lemma_leaf_source(nodes, above, x);
    let node = nodes[i];
    let path = above.push(node.label);
    lemma_leaf_path(node, above, x);
    if node.href is Some {
        assert(x.path == path);
        law_leaves_are_links(node, prefix);
        assert(node_html(node, prefix) == piece);
        assert(piece.subrange(0, 0int + piece.len()) =~= piece);
        assert(stands_at(node_html(node, prefix), piece, 0));
    } else {
        assert(leaves(node.children, path).count(x) > 0);
        law_tree_html_links_every_leaf(node.children, path, x, prefix);
        law_folders_enclose_their_children(node, prefix);
        lemma_holds_within(
            folder_start(node.label, node.open),
            tree_html(node.children, prefix),
            "</ul></details></li>"@,
            piece,
        );
    }
    lemma_node_in_tree(nodes, i, prefix, piece);
}

proof fn lemma_node_in_tree(nodes: Seq<NavTreeView>, i: int, prefix: Seq<char>, piece: Seq<char>)
    requires
        0 <= i < nodes.len(),
        holds(node_html(nodes[i], prefix), piece),
    ensures
        holds(tree_html(nodes, prefix), piece),
    decreases nodes.len(),
{
    let front = nodes.drop_last();
    let none = Seq::<char>::empty();
    let (a, b) = (tree_html(front, prefix), node_html(nodes.last(), prefix));
    assert(tree_html(nodes, prefix) =~= none + a + b);
    assert(tree_html(nodes, prefix) =~= a + b + none);
    if i == nodes.len() - 1 {
        lemma_holds_within(a, b, none, piece);
    } else {
        lemma_node_in_tree(front, i, prefix, piece);
        lemma_holds_within(none, a, b, piece);
    }
}

proof fn lemma_item_in_list(items: Seq<NavItemView>, i: int, prefix: Seq<char>)
    requires
        0 <= i < items.len(),
    ensures
        holds(flat_items_html(items, prefix), listed_entry(items[i], prefix)),
    decreases items.len(),
{
    let front = items.drop_last();
    let none = Seq::<char>::empty();
    let piece = listed_entry(items[i], prefix);
    let (a, b) = (flat_items_html(front, prefix), flat_item_html(items.last(), prefix));
    law_flat_entries_are_links(items.last(), prefix);
    assert(flat_items_html(items, prefix) =~= none + a + b);
    assert(flat_items_html(items, prefix) =~= a + b + none);
    if i == items.len() - 1 {
        assert(piece.subrange(0, 0int + piece.len()) =~= piece);
        assert(stands_at(b, piece, 0));
        lemma_holds_within(a, b, none, piece);
    } else {
        lemma_item_in_list(front, i, prefix);
        lemma_holds_within(none, a, b, piece);
    }
}

/// Whether `text` is a category with the given title and number of entries, around
/// `body`. A category that is not shown is empty.
pub open spec fn is_category(text: Seq<char>, title: Seq<char>, count: nat, body: Seq<char>, shown: bool) -> bool {
    if shown {
        text == category_start(title, count) + body + "</ul></div>"@
    } else {
        text.len() == 0
    }
}

/// Whether every item has its entry in `text`.
pub open spec fn lists_all(text: Seq<char>, items: Seq<NavItemView>, prefix: Seq<char>) -> bool {
    forall|i: int| 0 <= i < items.len() ==> holds(text, listed_entry(#[trigger] items[i], prefix))
}

/// Whether `text` is the types, the modules and the globals of the navigation, in
/// this order: each category that has entries under its title with their number,
/// with a link for every module and every global.
pub open spec fn is_sidebar(
    text: Seq<char>,
    nav: NavModelView,
    types: Seq<char>,
    modules: Seq<char>,
    globals: Seq<char>,
) -> bool {
    let prefix = nav.root_prefix;
    &&& text == types + modules + globals
    &&& is_category(types, "Types"@, nav.types.len(), tree_html(nav.type_tree, prefix), nav.type_tree.len() > 0)
    &&& is_category(
        modules,
        "Modules"@,
        nav.modules.len(),
        flat_items_html(nav.modules, prefix),
        nav.modules.len() > 0,
    )
    &&& is_category(
        globals,
        "Globals"@,
        nav.globals.len(),
        flat_items_html(nav.globals, prefix),
        nav.globals.len() > 0,
    )
    &&& lists_all(modules, nav.modules, prefix)
    &&& lists_all(globals, nav.globals, prefix)
}

/// The sidebar shows the tree of types, then the modules, then the globals, and
/// links every module and every global.
pub proof fn law_sidebar_shows_all_categories(nav: NavModelView) -> (parts: (Seq<char>, Seq<char>, Seq<char>))
    ensures
        is_sidebar(sidebar(nav), nav, parts.0, parts.1, parts.2),
{
    let prefix = nav.root_prefix;
    let types = category_html("Types"@, nav.types.len(), tree_html(nav.type_tree, prefix), nav.type_tree.len() > 0);
    let modules = category_html(
        "Modules"@,
        nav.modules.len(),
        flat_items_html(nav.modules, prefix),
        nav.modules.len() > 0,
    );
    let globals = category_html(
        "Globals"@,
        nav.globals.len(),
        flat_items_html(nav.globals, prefix),
        nav.globals.len() > 0,
    );
    assert forall|i: int| 0 <= i < nav.modules.len() implies holds(
        modules,
        listed_entry(#[trigger] nav.modules[i], prefix),
    ) by {
        lemma_item_in_list(nav.modules, i, prefix);
        lemma_holds_within(
            header_html("Modules"@, nav.modules.len()),
            flat_items_html(nav.modules, prefix),
            "</ul></div>"@,
            listed_entry(nav.modules[i], prefix),
        );
    }
    assert forall|i: int| 0 <= i < nav.globals.len() implies holds(
        globals,
        listed_entry(#[trigger] nav.globals[i], prefix),
    ) by {
        lemma_item_in_list(nav.globals, i, prefix);
        lemma_holds_within(
            header_html("Globals"@, nav.globals.len()),
            flat_items_html(nav.globals, prefix),
            "</ul></div>"@,
            listed_entry(nav.globals[i], prefix),
        );
    }
    (types, modules, globals)
}

/// The types of a sidebar hold the link of every leaf of the tree.
pub proof fn law_sidebar_links_every_leaf(nav: NavModelView, x: Leaf)
    requires
        leaves(nav.type_tree, Seq::empty()).count(x) > 0,
        x.data_name is Some,
        x.href is Some,
    ensures
        x.path.len() > 0,
        holds(
            sidebar(nav),
            tree_entry(x.data_name->0, nav.root_prefix, x.href->0, x.active, x.kind, x.path.last()),
        ),
{
    let prefix = nav.root_prefix;
    let piece = tree_entry(x.data_name->0, prefix, x.href->0, x.active, x.kind, x.path.last());
    law_tree_html_links_every_leaf(nav.type_tree, Seq::empty(), x, prefix);
    let i = lemma_leaf_source(nav.type_tree, Seq::empty(), x);
    let (types, modules, globals) = law_sidebar_shows_all_categories(nav);
    lemma_holds_within(
        category_start("Types"@, nav.types.len()),
        tree_html(nav.type_tree, prefix),
        "</ul></div>"@,
        piece,
    );
    assert(sidebar(nav) =~= Seq::<char>::empty() + types + (modules + globals));
    lemma_holds_within(Seq::empty(), types, modules + globals, piece);
}

} // verus!

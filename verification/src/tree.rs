//! The tree of types: namespaces as folders, types as leaves.

use vstd::prelude::*;
use vstd::slice::slice_subrange;
use crate::names::{bare_name, kind_of, split_type_name};
use crate::sort::{key_of, lemma_sorted_by_map, sort_by_key, sorted_by};
use crate::text::{dot_parts, same_text, split_dots, str_views};
use crate::types::{forest_view, item_views, node_view, NavItem, NavItemView, NavTreeNode, NavTreeView};

verus! {

/// The leaf of an entry.
pub open spec fn leaf(label: Seq<char>, item: NavItemView, kind: Seq<char>) -> NavTreeView {
    NavTreeView {
        label,
        data_name: Some(item.name),
        kind,
        href: Some(item.href),
        active: item.active,
        open: false,
        children: Seq::empty(),
    }
}

/// A closed folder with nothing in it.
pub open spec fn empty_folder(label: Seq<char>) -> NavTreeView {
    NavTreeView {
        label,
        data_name: None,
        kind: Seq::empty(),
        href: None,
        active: false,
        open: false,
        children: Seq::empty(),
    }
}

/// Whether `node` is a folder with the given label.
pub open spec fn is_folder(node: NavTreeView, label: Seq<char>) -> bool {
    node.href is None && node.label == label
}

/// The place of the first folder with the given label; the number of nodes where
/// there is none.
pub open spec fn folder_at(nodes: Seq<NavTreeView>, label: Seq<char>) -> int
    decreases nodes.len(),
{
    if nodes.len() == 0 {
        0
    } else {
        let i = folder_at(nodes.drop_last(), label);
        if i < nodes.len() - 1 || is_folder(nodes.last(), label) {
            i
        } else {
            nodes.len() as int
        }
    }
}

/// `nodes` with a leaf added under the folders that `path` names, all but its
/// last part, which labels the leaf. A folder that is missing is added.
pub open spec fn inserted(
    nodes: Seq<NavTreeView>,
    path: Seq<Seq<char>>,
    item: NavItemView,
    kind: Seq<char>,
) -> Seq<NavTreeView>
    decreases path.len(),
{
    if path.len() <= 1 {
        nodes.push(leaf(path[0], item, kind))
    } else {
        let i = folder_at(nodes, path[0]);
        let all = if i < nodes.len() {
            nodes
        } else {
            nodes.push(empty_folder(path[0]))
        };
        all.update(i, NavTreeView { children: inserted(all[i].children, path.skip(1), item, kind), ..all[i] })
    }
}

/// Adds the leaf of an entry under the folders that `path` names.
pub fn insert_tree(nodes: &mut Vec<NavTreeNode>, path: &[&str], item: &NavItem, kind: &str)
    requires
        path@.len() > 0,
    ensures
        forest_view(final(nodes)@) == inserted(forest_view(old(nodes)@), str_views(path@), item@, kind@),
    decreases path@.len(),
{
    let head = path[0];
    if path.len() == 1 {
        nodes.push(
            NavTreeNode {
                label: head.to_string(),
                data_name: Some(item.name.clone()),
                kind: kind.to_string(),
                href: Some(item.href.clone()),
                active: item.active,
                open: false,
                children: Vec::new(),
            },
        );
        proof {
            let added = nodes@[old(nodes)@.len() as int];
            assert(forest_view(added.children@) =~= Seq::empty());
            assert(node_view(added) == leaf(head@, item@, kind@));
            assert(forest_view(nodes@) =~= inserted(forest_view(old(nodes)@), str_views(path@), item@, kind@));
        }
        return ;
    }
    let ghost start = forest_view(nodes@);
    let index: usize = find_folder(nodes, head);
    if index == nodes.len() {
        nodes.push(
            NavTreeNode {
                label: head.to_string(),
                data_name: None,
                kind: String::new(),
                href: None,
                active: false,
                open: false,
                children: Vec::new(),
            },
        );
        proof {
            let added = nodes@[index as int];
            assert(forest_view(added.children@) =~= Seq::empty());
            assert(node_view(added) == empty_folder(head@));
            assert(forest_view(nodes@) =~= start.push(empty_folder(head@)));
        }
    }
    let rest = slice_subrange(path, 1, path.len());
    assert(str_views(rest@) == str_views(path@).skip(1));
    let ghost all = forest_view(nodes@);
    insert_tree(&mut nodes[index].children, rest, item, kind);
    proof {
        assert(forest_view(nodes@) =~= all.update(index as int, node_view(nodes@[index as int])));
    }
}

/// The place of the first folder with the given label, or the number of nodes.
fn find_folder(nodes: &Vec<NavTreeNode>, label: &str) -> (index: usize)
    ensures
        index == folder_at(forest_view(nodes@), label@),
        index <= nodes.len(),
{
    let mut i: usize = 0;
    assert(forest_view(nodes@).take(0) =~= Seq::empty());
    while i < nodes.len()
        invariant
            i <= nodes.len(),
            folder_at(forest_view(nodes@).take(i as int), label@) == i,
        decreases nodes.len() - i,
    {
        proof {
            assert(forest_view(nodes@).take(i + 1).drop_last() =~= forest_view(nodes@).take(i as int));
        }
        if nodes[i].href.is_none() && same_text(nodes[i].label.as_str(), label) {
            proof {
                assert(folder_at(forest_view(nodes@).take(i + 1), label@) == i);
                lemma_folder_at_prefix(forest_view(nodes@), i + 1, label@);
            }
            return i;
        }
        i = i + 1;
    }
    assert(forest_view(nodes@).take(i as int) =~= forest_view(nodes@));
    i
}

proof fn lemma_folder_at_prefix(nodes: Seq<NavTreeView>, n: int, label: Seq<char>)
    requires
        0 <= n <= nodes.len(),
        folder_at(nodes.take(n), label) < n,
    ensures
        folder_at(nodes, label) == folder_at(nodes.take(n), label),
    decreases nodes.len() - n,
{
    if n == nodes.len() {
        assert(nodes.take(n) =~= nodes);
    } else {
        assert(nodes.take(n + 1).drop_last() =~= nodes.take(n));
        lemma_folder_at_prefix(nodes, n + 1, label);
    }
}

/// A node whose descendants are in order.
pub open spec fn sorted_node(node: NavTreeView) -> NavTreeView
    decreases node, 2int,
{
    NavTreeView { children: sorted_forest(node.children), ..node }
}

/// Nodes whose descendants are in order.
pub open spec fn sorted_below(nodes: Seq<NavTreeView>) -> Seq<NavTreeView>
    decreases nodes, 0int,
{
    Seq::new(
        nodes.len(),
        |i: int|
            if 0 <= i < nodes.len() {
                sorted_node(nodes[i])
            } else {
                arbitrary()
            },
    )
}

/// Nodes in stable order of their labels, at every level.
pub open spec fn sorted_forest(nodes: Seq<NavTreeView>) -> Seq<NavTreeView>
    decreases nodes, 1int,
{
    sorted_by(sorted_below(nodes), label_of())
}

/// The label of a node, as a function.
pub open spec fn label_of() -> spec_fn(NavTreeView) -> Seq<char> {
    |node: NavTreeView| node.label
}

/// Sorts the nodes of every level by label.
pub fn sort_tree(nodes: &mut Vec<NavTreeNode>)
    ensures
        forest_view(final(nodes)@) == sorted_forest(forest_view(old(nodes)@)),
    decreases *old(nodes),
{
    let ghost start = nodes@;
    let mut i: usize = 0;
    while i < nodes.len()
        invariant
            i <= nodes.len(),
            start == old(nodes)@,
            nodes.len() == start.len(),
            forall|j: int| 0 <= j < i ==> node_view(#[trigger] nodes@[j]) == sorted_node(node_view(start[j])),
            forall|j: int| i <= j < nodes.len() ==> #[trigger] nodes@[j] == start[j],
        decreases nodes.len() - i,
    {
        sort_tree(&mut nodes[i].children);
        i = i + 1;
    }
    let ghost inner = nodes@;
    sort_by_key(nodes);
    proof {
        let f = |n: NavTreeNode| node_view(n);
        lemma_sorted_by_map(inner, f, key_of::<NavTreeNode>(), label_of());
        assert(forest_view(nodes@) =~= nodes@.map_values(f));
        assert(inner.map_values(f) =~= sorted_below(forest_view(start)));
    }
}

/// Whether `node` is active or has an active descendant.
pub open spec fn node_active(node: NavTreeView) -> bool
    decreases node,
{
    node.active || forest_active(node.children)
}

/// Whether there is an active node at any level.
pub open spec fn forest_active(nodes: Seq<NavTreeView>) -> bool
    decreases nodes,
{
    exists|i: int| 0 <= i < nodes.len() && node_active(#[trigger] nodes[i])
}

/// A node with the folders on the active branch opened, itself among them.
pub open spec fn opened_node(node: NavTreeView) -> NavTreeView
    decreases node,
{
    if node.active {
        node
    } else {
        NavTreeView {
            open: node.open || forest_active(node.children),
            children: opened_forest(node.children),
            ..node
        }
    }
}

/// Nodes with the folders on the active branch opened.
pub open spec fn opened_forest(nodes: Seq<NavTreeView>) -> Seq<NavTreeView>
    decreases nodes,
{
    Seq::new(
        nodes.len(),
        |i: int|
            if 0 <= i < nodes.len() {
                opened_node(nodes[i])
            } else {
                arbitrary()
            },
    )
}

/// Opens the folders on the active branch. Returns whether there is an active
/// node.
pub fn set_open(nodes: &mut [NavTreeNode]) -> (has_active: bool)
    ensures
        forest_view(final(nodes)@) == opened_forest(forest_view(old(nodes)@)),
        has_active == forest_active(forest_view(old(nodes)@)),
    decreases old(nodes)@,
{
    let ghost start = nodes@;
    let ghost views = forest_view(start);
    let mut has_active: bool = false;
    let mut i: usize = 0;
    while i < nodes.len()
        invariant
            i <= nodes.len(),
            start == old(nodes)@,
            views == forest_view(start),
            nodes@.len() == start.len(),
            has_active == exists|j: int| 0 <= j < i && node_active(#[trigger] views[j]),
            forall|j: int| 0 <= j < i ==> node_view(#[trigger] nodes@[j]) == opened_node(node_view(start[j])),
            forall|j: int| i <= j < nodes@.len() ==> #[trigger] nodes@[j] == start[j],
        decreases nodes.len() - i,
    {
        let ghost node = node_view(nodes@[i as int]);
        assert(node == views[i as int]);
        if nodes[i].active {
            has_active = true;
        } else if set_open(nodes[i].children.as_mut_slice()) {
            nodes[i].open = true;
            has_active = true;
        }
        assert(node_view(nodes@[i as int]) == opened_node(node));
        i = i + 1;
    }
    assert(forest_view(nodes@) =~= opened_forest(views));
    has_active
}

/// The tree of the types, folders and leaves in the order of their first entry.
pub open spec fn planted(items: Seq<NavItemView>) -> Seq<NavTreeView>
    decreases items.len(),
{
    if items.len() == 0 {
        Seq::empty()
    } else {
        let item = items.last();
        inserted(planted(items.drop_last()), dot_parts(bare_name(item.name)), item, kind_of(item.name))
    }
}

/// The tree of the types, in order, with the active branch open.
pub open spec fn type_tree(items: Seq<NavItemView>) -> Seq<NavTreeView> {
    opened_forest(sorted_forest(planted(items)))
}

/// Builds the tree of the types. The dots of a full name separate the folders
/// from each other and from the leaf.
pub fn build_type_tree(items: &[NavItem]) -> (roots: Vec<NavTreeNode>)
    ensures
        forest_view(roots@) == type_tree(item_views(items@)),
{
    let mut roots: Vec<NavTreeNode> = Vec::new();
    let mut i: usize = 0;
    let ghost views = item_views(items@);
    assert(forest_view(roots@) =~= planted(views.take(0)));
    while i < items.len()
        invariant
            i <= items.len(),
            views == item_views(items@),
            forest_view(roots@) == planted(views.take(i as int)),
        decreases items.len() - i,
    {
        let item = &items[i];
        let (kind, full_name) = split_type_name(item.name.as_str());
        let segments = split_dots(full_name);
        insert_tree(&mut roots, segments.as_slice(), item, kind);
        proof {
            assert(views.take(i + 1).drop_last() =~= views.take(i as int));
            assert(views.take(i + 1).last() == item@);
        }
        i = i + 1;
    }
    assert(views.take(i as int) =~= views);
    sort_tree(&mut roots);
    set_open(roots.as_mut_slice());
    roots
}

} // verus!

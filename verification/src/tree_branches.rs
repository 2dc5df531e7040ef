//! What opening, inserting and sorting do to a tree.

use vstd::prelude::*;
use crate::names::{bare_name, kind_of};
use crate::sort::{has_key, law_sorted_by_is_stable_order, with_key};
use crate::text::{dot_parts, text_le};
use crate::tree::{
    folder_at, forest_active, inserted, label_of, node_active, opened_forest, opened_node, planted, sorted_below,
    sorted_forest, sorted_node, type_tree,
};
use crate::tree_laws::{
    law_tree_is_open_where_active, law_tree_is_shaped, leaves, lemma_folder_at, node_leaves, node_shaped,
    open_where_active, shaped, Leaf,
};
use crate::tree_order::{lemma_leaf_among, lemma_leaf_source};
use crate::types::{NavItemView, NavTreeView};

verus! {

/// Whether one of the leaves among and under `nodes` is active.
pub open spec fn has_active_leaf(nodes: Seq<NavTreeView>, above: Seq<Seq<char>>) -> bool {
    exists|x: Leaf| #[trigger] leaves(nodes, above).count(x) > 0 && x.active
}

/// Whether at every level exactly those folders are open that have an active leaf
/// under them.
pub open spec fn open_above_active(nodes: Seq<NavTreeView>, above: Seq<Seq<char>>) -> bool
    decreases nodes,
{
    forall|i: int|
        0 <= i < nodes.len() ==> {
            let node = #[trigger] nodes[i];
            let path = above.push(node.label);
            (node.open <==> has_active_leaf(node.children, path)) && open_above_active(node.children, path)
        }
}

/// In the tree of types a folder is open if and only if one of the leaves under it
/// is active, at whatever place among its siblings and at whatever depth.
pub proof fn law_tree_is_open_above_active_leaves(items: Seq<NavItemView>)
    ensures
        open_above_active(type_tree(items), Seq::empty()),
{
    law_tree_is_shaped(items);
    law_tree_is_open_where_active(items);
    lemma_open_above_active(type_tree(items), Seq::empty());
}

proof fn lemma_open_above_active(nodes: Seq<NavTreeView>, above: Seq<Seq<char>>)
    requires
        shaped(nodes),
        open_where_active(nodes),
    ensures
        open_above_active(nodes, above),
    decreases nodes,
{
    assert forall|i: int| 0 <= i < nodes.len() implies {
        let node = #[trigger] nodes[i];
        let path = above.push(node.label);
        (node.open <==> has_active_leaf(node.children, path)) && open_above_active(node.children, path)
    } by {
        let node = nodes[i];
        assert(node_shaped(node) && open_where_active(node.children));
        if node.href is Some {
            assert(node.children =~= Seq::empty());
        }
        law_active_means_an_active_leaf(node.children, above.push(node.label));
        lemma_open_above_active(node.children, above.push(node.label));
    }
}

/// There is an active node in a tree if and only if there is an active leaf.
pub proof fn law_active_means_an_active_leaf(nodes: Seq<NavTreeView>, above: Seq<Seq<char>>)
    requires
        shaped(nodes),
    ensures
        forest_active(nodes) <==> has_active_leaf(nodes, above),
    decreases nodes,
{
    if forest_active(nodes) {
        let i = choose|i: int| 0 <= i < nodes.len() && node_active(#[trigger] nodes[i]);
        let node = nodes[i];
        let path = above.push(node.label);
        assert(node_shaped(node));
        if node.href is Some {
            let x = Leaf { path, data_name: node.data_name, kind: node.kind, href: node.href, active: node.active };
            assert(node_leaves(node, above).count(x) > 0);
            lemma_leaf_among(nodes, above, i, x);
            assert(x.active);
        } else {
            law_active_means_an_active_leaf(node.children, path);
            let x = choose|x: Leaf| #[trigger] leaves(node.children, path).count(x) > 0 && x.active;
            lemma_leaf_among(nodes, above, i, x);
        }
    }
    if has_active_leaf(nodes, above) {
        let x = choose|x: Leaf| #[trigger] leaves(nodes, above).count(x) > 0 && x.active;
        let i = lemma_leaf_source(nodes, above, x);
        let node = nodes[i];
        let path = above.push(node.label);
        assert(node_shaped(node));
        if node.href is None {
            law_active_means_an_active_leaf(node.children, path);
            assert(leaves(node.children, path).count(x) > 0);
        }
        assert(node_active(nodes[i]));
    }
}

/// Whether the places lead, from each node to one of its children, to a node that
/// is active.
pub open spec fn leads_to_active(nodes: Seq<NavTreeView>, places: Seq<int>) -> bool
    decreases places.len(),
{
    &&& places.len() > 0
    &&& 0 <= places[0] < nodes.len()
    &&& nodes[places[0]].active || leads_to_active(nodes[places[0]].children, places.drop_first())
}

/// Whether some places lead to a node that is active.
pub open spec fn active_somewhere(nodes: Seq<NavTreeView>) -> bool {
    exists|places: Seq<int>| leads_to_active(nodes, places)
}

/// Opening says whether there is an active node anywhere. A node that is not
/// active becomes open if there is one anywhere under it, and what is under it is
/// opened in turn. An active node stays as it is, and nothing but whether nodes
/// are open changes.
pub proof fn law_opening_follows_the_active_branch(nodes: Seq<NavTreeView>)
    ensures
        forest_active(nodes) <==> active_somewhere(nodes),
        opened_forest(nodes).len() == nodes.len(),
        forall|i: int|
            0 <= i < nodes.len() ==> {
                let (before, after) = (nodes[i], #[trigger] opened_forest(nodes)[i]);
                &&& before.active ==> after == before
                &&& !before.active ==> (after.open <==> before.open || active_somewhere(before.children))
                &&& !before.active ==> after.children == opened_forest(before.children)
                &&& after == (NavTreeView { open: after.open, children: after.children, ..before })
            },
{
    lemma_active_somewhere(nodes);
    assert forall|i: int| 0 <= i < nodes.len() implies {
        let (before, after) = (nodes[i], #[trigger] opened_forest(nodes)[i]);
        &&& before.active ==> after == before
        &&& !before.active ==> (after.open <==> before.open || active_somewhere(before.children))
        &&& !before.active ==> after.children == opened_forest(before.children)
        &&& after == (NavTreeView { open: after.open, children: after.children, ..before })
    } by {
        assert(opened_forest(nodes)[i] == opened_node(nodes[i]));
        lemma_active_somewhere(nodes[i].children);
    }
}

proof fn lemma_active_somewhere(nodes: Seq<NavTreeView>)
    ensures
        forest_active(nodes) <==> active_somewhere(nodes),
    decreases nodes,
{
    if forest_active(nodes) {
        let i = choose|i: int| 0 <= i < nodes.len() && node_active(#[trigger] nodes[i]);
        if nodes[i].active {
            assert(leads_to_active(nodes, seq![i]));
        } else {
            lemma_active_somewhere(nodes[i].children);
            let rest = choose|places: Seq<int>| leads_to_active(nodes[i].children, places);
            let places = seq![i] + rest;
            assert(places.drop_first() =~= rest);
            assert(leads_to_active(nodes, places));
        }
    }
    if active_somewhere(nodes) {
        let places = choose|places: Seq<int>| leads_to_active(nodes, places);
        let i = places[0];
        if !nodes[i].active {
            assert(leads_to_active(nodes[i].children, places.drop_first()));
            lemma_active_somewhere(nodes[i].children);
        }
        assert(node_active(nodes[i]));
    }
}

/// Whether `after` is `before` with the node at `i` replaced, or added at the end,
/// where `i` is the place of the first folder labelled `head`.
pub open spec fn touches_folder(
    before: Seq<NavTreeView>,
    after: Seq<NavTreeView>,
    head: Seq<char>,
    i: int,
) -> bool {
    &&& 0 <= i <= before.len()
    &&& forall|j: int| 0 <= j < i ==> !((#[trigger] before[j]).href is None && before[j].label == head)
    &&& i < before.len() ==> before[i].href is None && before[i].label == head && after.len() == before.len()
    &&& i == before.len() ==> after.len() == before.len() + 1
    &&& forall|j: int| 0 <= j < before.len() && j != i ==> #[trigger] after[j] == before[j]
}

/// The last part of a path labels a new leaf at the end.
pub proof fn law_last_part_becomes_a_leaf(
    nodes: Seq<NavTreeView>,
    path: Seq<Seq<char>>,
    item: NavItemView,
    kind: Seq<char>,
)
    requires
        path.len() == 1,
    ensures
        ({
            let after = inserted(nodes, path, item, kind);
            let leaf = after[nodes.len() as int];
            &&& after.len() == nodes.len() + 1
            &&& after.take(nodes.len() as int) == nodes
            &&& leaf.label == path[0]
            &&& leaf.data_name == Some(item.name)
            &&& leaf.kind == kind
            &&& leaf.href == Some(item.href)
            &&& leaf.active == item.active
            &&& !leaf.open
            &&& leaf.children.len() == 0
        }),
{
    assert(inserted(nodes, path, item, kind).take(nodes.len() as int) =~= nodes);
}

/// The first of several parts of a path names a folder: the first that has this
/// label, or a new one at the end. The rest of the path leads on from what is in
/// it. All other nodes stay as they are.
pub proof fn law_first_part_names_a_folder(
    nodes: Seq<NavTreeView>,
    path: Seq<Seq<char>>,
    item: NavItemView,
    kind: Seq<char>,
) -> (i: int)
    requires
        path.len() > 1,
    ensures
        ({
            let after = inserted(nodes, path, item, kind);
            let folder = after[i];
            let old_children = if i < nodes.len() {
                nodes[i].children
            } else {
                Seq::empty()
            };
            &&& touches_folder(nodes, after, path[0], i)
            &&& folder.href is None
            &&& folder.label == path[0]
            &&& folder.children == inserted(old_children, path.skip(1), item, kind)
            &&& i < nodes.len() ==> folder == (NavTreeView { children: folder.children, ..nodes[i] })
            &&& i == nodes.len() ==> folder.data_name is None && folder.kind.len() == 0 && !folder.active
                && !folder.open
        }),
{
    let i = folder_at(nodes, path[0]);
    lemma_folder_at(nodes, path[0]);
    i
}

/// The test whether a node has the given label.
pub open spec fn labelled(label: Seq<char>) -> spec_fn(NavTreeView) -> bool {
    |node: NavTreeView| node.label == label
}

/// A node with what is under it sorted, as a function.
pub open spec fn sorted_inside() -> spec_fn(NavTreeView) -> NavTreeView {
    |node: NavTreeView| NavTreeView { children: sorted_forest(node.children), ..node }
}

/// Sorting puts the nodes of a level in ascending order of their labels, keeps the
/// order of those with one label, and sorts what is under each.
pub proof fn law_levels_are_sorted_stably(nodes: Seq<NavTreeView>, label: Seq<char>)
    ensures
        forall|i: int, j: int|
            0 <= i <= j < sorted_forest(nodes).len() ==> text_le(
                (#[trigger] sorted_forest(nodes)[i]).label,
                (#[trigger] sorted_forest(nodes)[j]).label,
            ),
        sorted_forest(nodes).filter(labelled(label)) == nodes.filter(labelled(label)).map_values(sorted_inside()),
{
    let below = sorted_below(nodes);
    let sorted = sorted_forest(nodes);
    law_sorted_by_is_stable_order(below, label_of());
    assert forall|i: int, j: int| 0 <= i <= j < sorted.len() implies text_le(
        (#[trigger] sorted[i]).label,
        (#[trigger] sorted[j]).label,
    ) by {
        assert(text_le(label_of()(sorted[i]), label_of()(sorted[j])));
    }
    assert(has_key(label_of(), label) =~= labelled(label));
    assert(with_key(sorted, label_of(), label) == with_key(below, label_of(), label));
    assert(below =~= nodes.map_values(sorted_inside())) by {
        assert forall|i: int| 0 <= i < nodes.len() implies below[i] == nodes.map_values(sorted_inside())[i] by {
            assert(below[i] == sorted_node(nodes[i]));
        }
    }
    lemma_filter_inside(nodes, label);
}

proof fn lemma_filter_inside(nodes: Seq<NavTreeView>, label: Seq<char>)
    ensures
        nodes.map_values(sorted_inside()).filter(labelled(label)) == nodes.filter(labelled(label)).map_values(
            sorted_inside(),
        ),
    decreases nodes.len(),
{
    let (f, p) = (sorted_inside(), labelled(label));
    reveal(Seq::filter);
    if nodes.len() > 0 {
        let front = nodes.drop_last();
        lemma_filter_inside(front, label);
        assert(nodes.map_values(f).drop_last() =~= front.map_values(f));
        assert(nodes.map_values(f).last() == f(nodes.last()));
        assert(nodes.map_values(f).filter(p) =~= nodes.filter(p).map_values(f));
    } else {
        assert(nodes.map_values(f).filter(p) =~= nodes.filter(p).map_values(f));
    }
}

/// Entries are inserted one after the other, each under the parts of its full name
/// and with its kind. Then every level is sorted, and the active branch opened.
pub proof fn law_entries_are_inserted_in_turn(items: Seq<NavItemView>, item: NavItemView)
    ensures
        planted(Seq::empty()).len() == 0,
        planted(items.push(item)) == inserted(
            planted(items),
            dot_parts(bare_name(item.name)),
            item,
            kind_of(item.name),
        ),
        type_tree(items) == opened_forest(sorted_forest(planted(items))),
{
    assert(items.push(item).drop_last() =~= items);
}

} // verus!

//! What holds of every tree of types.

use vstd::multiset::Multiset;
use vstd::prelude::*;
use crate::names::{bare_name, kind_of};
use crate::sort::{
    law_sorted_by_is_stable_order, lemma_sorted_by_each, lemma_sorted_by_pairwise, place, sorted_by,
};
use crate::text::{dot_parts, law_dot_parts_join, text_le};
use crate::tree::{
    empty_folder, folder_at, forest_active, inserted, is_folder, label_of, leaf, node_active, opened_forest,
    opened_node, planted, sorted_below, sorted_forest, sorted_node, type_tree,
};
use crate::types::{NavItemView, NavTreeView};

verus! {

/// A leaf together with the labels that lead to it, its own last.
pub struct Leaf {
    pub path: Seq<Seq<char>>,
    pub data_name: Option<Seq<char>>,
    pub kind: Seq<char>,
    pub href: Option<Seq<char>>,
    pub active: bool,
}

/// The leaves under `node`, or `node` itself where it is one. The labels above
/// it are `above`.
pub open spec fn node_leaves(node: NavTreeView, above: Seq<Seq<char>>) -> Multiset<Leaf>
    decreases node,
{
    let path = above.push(node.label);
    if node.href is Some {
        Multiset::singleton(
            Leaf { path, data_name: node.data_name, kind: node.kind, href: node.href, active: node.active },
        )
    } else {
        leaves(node.children, path)
    }
}

/// The leaves among and under `nodes`.
pub open spec fn leaves(nodes: Seq<NavTreeView>, above: Seq<Seq<char>>) -> Multiset<Leaf>
    decreases nodes,
{
    if nodes.len() == 0 {
        Multiset::empty()
    } else {
        leaves(nodes.drop_last(), above).add(node_leaves(nodes.last(), above))
    }
}

/// The leaf that an entry is to have: under its namespaces, with its own name,
/// kind and page.
pub open spec fn leaf_of(item: NavItemView) -> Leaf {
    Leaf {
        path: dot_parts(bare_name(item.name)),
        data_name: Some(item.name),
        kind: kind_of(item.name),
        href: Some(item.href),
        active: item.active,
    }
}

/// The leaves that the entries are to have.
pub open spec fn leaves_of(items: Seq<NavItemView>) -> Multiset<Leaf>
    decreases items.len(),
{
    if items.len() == 0 {
        Multiset::empty()
    } else {
        leaves_of(items.drop_last()).insert(leaf_of(items.last()))
    }
}

/// Every entry has exactly one leaf in the tree, under the folders that its
/// namespaces name, and the tree has no other leaf.
pub proof fn law_tree_holds_each_entry_once(items: Seq<NavItemView>)
    ensures
        leaves(type_tree(items), Seq::empty()) == leaves_of(items),
{
    lemma_planted_leaves(items);
    law_sorting_keeps_leaves(planted(items), Seq::empty());
    law_opening_keeps_leaves(sorted_forest(planted(items)), Seq::empty());
}

proof fn lemma_planted_leaves(items: Seq<NavItemView>)
    ensures
        leaves(planted(items), Seq::empty()) == leaves_of(items),
    decreases items.len(),
{
    if items.len() > 0 {
        let item = items.last();
        let path = dot_parts(bare_name(item.name));
        lemma_planted_leaves(items.drop_last());
        law_dot_parts_join(bare_name(item.name));
        law_inserting_adds_one_leaf(planted(items.drop_last()), path, item, kind_of(item.name), Seq::empty());
        assert(Seq::<Seq<char>>::empty() + path == path);
    }
}

/// Inserting an entry adds its leaf and keeps all others.
pub proof fn law_inserting_adds_one_leaf(
    nodes: Seq<NavTreeView>,
    path: Seq<Seq<char>>,
    item: NavItemView,
    kind: Seq<char>,
    above: Seq<Seq<char>>,
)
    requires
        path.len() > 0,
    ensures
        leaves(inserted(nodes, path, item, kind), above) == leaves(nodes, above).insert(
            Leaf {
                path: above + path,
                data_name: Some(item.name),
                kind,
                href: Some(item.href),
                active: item.active,
            },
        ),
    decreases path.len(),
{
    let added = Leaf {
        path: above + path,
        data_name: Some(item.name),
        kind,
        href: Some(item.href),
        active: item.active,
    };
    if path.len() == 1 {
        let new = leaf(path[0], item, kind);
        assert(nodes.push(new).drop_last() == nodes);
        assert(above.push(path[0]) == above + path);
        assert(node_leaves(new, above) == Multiset::singleton(added));
        assert(leaves(nodes.push(new), above) == leaves(nodes, above).insert(added));
    } else {
        let head = path[0];
        let i = folder_at(nodes, head);
        lemma_folder_at(nodes, head);
        let all = if i < nodes.len() {
            nodes
        } else {
            nodes.push(empty_folder(head))
        };
        if i == nodes.len() {
            assert(all.drop_last() == nodes);
            assert(leaves(Seq::<NavTreeView>::empty(), above.push(head)) == Multiset::<Leaf>::empty());
            assert(node_leaves(all.last(), above) == Multiset::<Leaf>::empty());
            assert(leaves(all, above) == leaves(nodes, above));
        }
        let node = all[i];
        let grown = NavTreeView { children: inserted(node.children, path.skip(1), item, kind), ..node };
        law_inserting_adds_one_leaf(node.children, path.skip(1), item, kind, above.push(head));
        assert(above.push(head) + path.skip(1) == above + path);
        assert(node_leaves(grown, above) == node_leaves(node, above).insert(added));
        lemma_update_leaves(all, i, grown, added, above);
    }
}

pub proof fn lemma_folder_at(nodes: Seq<NavTreeView>, label: Seq<char>)
    ensures
        0 <= folder_at(nodes, label) <= nodes.len(),
        folder_at(nodes, label) < nodes.len() ==> is_folder(nodes[folder_at(nodes, label)], label),
        forall|j: int| 0 <= j < folder_at(nodes, label) ==> !is_folder(#[trigger] nodes[j], label),
    decreases nodes.len(),
{
    if nodes.len() > 0 {
        let front = nodes.drop_last();
        lemma_folder_at(front, label);
        assert forall|j: int| 0 <= j < folder_at(nodes, label) implies !is_folder(#[trigger] nodes[j], label) by {
            if j < front.len() {
                assert(nodes[j] == front[j]);
            }
        }
    }
}

proof fn lemma_update_leaves(
    nodes: Seq<NavTreeView>,
    i: int,
    node: NavTreeView,
    added: Leaf,
    above: Seq<Seq<char>>,
)
    requires
        0 <= i < nodes.len(),
        node_leaves(node, above) == node_leaves(nodes[i], above).insert(added),
    ensures
        leaves(nodes.update(i, node), above) == leaves(nodes, above).insert(added),
    decreases nodes.len(),
{
    let front = nodes.drop_last();
    if i == nodes.len() - 1 {
        assert(nodes.update(i, node).drop_last() == front);
        assert(leaves(nodes.update(i, node), above) == leaves(nodes, above).insert(added));
    } else {
        lemma_update_leaves(front, i, node, added, above);
        assert(nodes.update(i, node).drop_last() == front.update(i, node));
        assert(leaves(nodes.update(i, node), above) == leaves(nodes, above).insert(added));
    }
}

proof fn lemma_place_leaves(
    nodes: Seq<NavTreeView>,
    x: NavTreeView,
    key: spec_fn(NavTreeView) -> Seq<char>,
    above: Seq<Seq<char>>,
)
    ensures
        leaves(place(nodes, x, key), above) == leaves(nodes, above).add(node_leaves(x, above)),
    decreases nodes.len(),
{
    if nodes.len() == 0 || text_le(key(nodes.last()), key(x)) {
        assert(nodes.push(x).drop_last() == nodes);
    } else {
        let front = nodes.drop_last();
        let placed = place(front, x, key);
        lemma_place_leaves(front, x, key, above);
        assert(placed.push(nodes.last()).drop_last() == placed);
        assert(leaves(place(nodes, x, key), above) == leaves(nodes, above).add(node_leaves(x, above)));
    }
}

proof fn lemma_sorted_by_leaves(nodes: Seq<NavTreeView>, key: spec_fn(NavTreeView) -> Seq<char>, above: Seq<Seq<char>>)
    ensures
        leaves(sorted_by(nodes, key), above) == leaves(nodes, above),
    decreases nodes.len(),
{
    if nodes.len() > 0 {
        lemma_sorted_by_leaves(nodes.drop_last(), key, above);
        lemma_place_leaves(sorted_by(nodes.drop_last(), key), nodes.last(), key, above);
    }
}

/// Sorting a tree keeps its leaves and where they stand.
pub proof fn law_sorting_keeps_leaves(nodes: Seq<NavTreeView>, above: Seq<Seq<char>>)
    ensures
        leaves(sorted_below(nodes), above) == leaves(nodes, above),
        leaves(sorted_forest(nodes), above) == leaves(nodes, above),
    decreases nodes,
{
    if nodes.len() > 0 {
        let front = nodes.drop_last();
        let last = nodes.last();
        law_sorting_keeps_leaves(front, above);
        law_sorting_keeps_leaves(last.children, above.push(last.label));
        assert(sorted_below(nodes).drop_last() =~= sorted_below(front));
        assert(sorted_below(nodes).last() == sorted_node(last));
        assert(node_leaves(sorted_node(last), above) == node_leaves(last, above));
    }
    lemma_sorted_by_leaves(sorted_below(nodes), label_of(), above);
}

/// Opening folders keeps the leaves and where they stand.
pub proof fn law_opening_keeps_leaves(nodes: Seq<NavTreeView>, above: Seq<Seq<char>>)
    ensures
        leaves(opened_forest(nodes), above) == leaves(nodes, above),
    decreases nodes,
{
    if nodes.len() > 0 {
        let front = nodes.drop_last();
        let last = nodes.last();
        law_opening_keeps_leaves(front, above);
        law_opening_keeps_leaves(last.children, above.push(last.label));
        assert(opened_forest(nodes).drop_last() =~= opened_forest(front));
        assert(opened_forest(nodes).last() == opened_node(last));
        assert(node_leaves(opened_node(last), above) == node_leaves(last, above));
    }
}

/// Whether the labels ascend at every level.
pub open spec fn in_order(nodes: Seq<NavTreeView>) -> bool
    decreases nodes,
{
    &&& forall|i: int, j: int|
        0 <= i <= j < nodes.len() ==> text_le((#[trigger] nodes[i]).label, (#[trigger] nodes[j]).label)
    &&& forall|i: int| 0 <= i < nodes.len() ==> in_order((#[trigger] nodes[i]).children)
}

/// The labels of the tree ascend at every level.
pub proof fn law_tree_is_in_order(items: Seq<NavItemView>)
    ensures
        in_order(type_tree(items)),
{
    lemma_sorted_in_order(planted(items));
    lemma_opened_in_order(sorted_forest(planted(items)));
}

proof fn lemma_sorted_in_order(nodes: Seq<NavTreeView>)
    ensures
        in_order(sorted_forest(nodes)),
    decreases nodes,
{
    let below = sorted_below(nodes);
    let p = |n: NavTreeView| in_order(n.children);
    assert forall|i: int| 0 <= i < below.len() implies p(#[trigger] below[i]) by {
        lemma_sorted_in_order(nodes[i].children);
        assert(below[i] == sorted_node(nodes[i]));
    }
    lemma_sorted_by_each(below, label_of(), p);
    law_sorted_by_is_stable_order(below, label_of());
    assert forall|i: int, j: int| 0 <= i <= j < sorted_forest(nodes).len() implies text_le(
        (#[trigger] sorted_forest(nodes)[i]).label,
        (#[trigger] sorted_forest(nodes)[j]).label,
    ) by {
        assert(text_le(label_of()(sorted_forest(nodes)[i]), label_of()(sorted_forest(nodes)[j])));
    }
    assert forall|i: int| 0 <= i < sorted_forest(nodes).len() implies in_order(
        (#[trigger] sorted_forest(nodes)[i]).children,
    ) by {
        assert(p(sorted_by(below, label_of())[i]));
    }
}

proof fn lemma_opened_in_order(nodes: Seq<NavTreeView>)
    requires
        in_order(nodes),
    ensures
        in_order(opened_forest(nodes)),
    decreases nodes,
{
    let opened = opened_forest(nodes);
    assert forall|i: int, j: int| 0 <= i <= j < opened.len() implies text_le(
        (#[trigger] opened[i]).label,
        (#[trigger] opened[j]).label,
    ) by {
        assert(opened[i] == opened_node(nodes[i]) && opened[j] == opened_node(nodes[j]));
        assert(text_le(nodes[i].label, nodes[j].label));
    }
    assert forall|i: int| 0 <= i < opened.len() implies in_order((#[trigger] opened[i]).children) by {
        assert(opened[i] == opened_node(nodes[i]));
        assert(in_order(nodes[i].children));
        lemma_opened_in_order(nodes[i].children);
    }
}

/// Whether `a` and `b` are not two folders with one label.
pub open spec fn apart(a: NavTreeView, b: NavTreeView) -> bool {
    a.href is None && b.href is None ==> a.label != b.label
}

/// Whether the label of a node is one part of a name, a leaf has nothing under it,
/// and a folder has something under it and is not itself an entry: it has no
/// name, no kind and is not active.
pub open spec fn node_shaped(node: NavTreeView) -> bool
    decreases node,
{
    &&& !node.label.contains('.')
    &&& if node.href is Some {
        node.data_name is Some && node.children.len() == 0
    } else {
        &&& node.data_name is None
        &&& node.kind.len() == 0
        &&& !node.active
        &&& node.children.len() > 0
        &&& shaped(node.children)
    }
}

/// Whether all nodes are as they should be and no level has two folders with one
/// label.
pub open spec fn shaped(nodes: Seq<NavTreeView>) -> bool
    decreases nodes,
{
    &&& forall|i: int| 0 <= i < nodes.len() ==> node_shaped(#[trigger] nodes[i])
    &&& forall|i: int, j: int|
        0 <= i < nodes.len() && 0 <= j < nodes.len() && i != j ==> apart(#[trigger] nodes[i], #[trigger] nodes[j])
}

/// In the tree no label holds a dot, leaves have nothing under them, no folder is
/// empty or active or has a kind, and no level has two folders with one label.
pub proof fn law_tree_is_shaped(items: Seq<NavItemView>)
    ensures
        shaped(type_tree(items)),
{
    lemma_planted_shaped(items);
    lemma_sorted_shaped(planted(items));
    lemma_opened_shaped(sorted_forest(planted(items)));
}

proof fn lemma_planted_shaped(items: Seq<NavItemView>)
    ensures
        shaped(planted(items)),
    decreases items.len(),
{
    if items.len() > 0 {
        let item = items.last();
        lemma_planted_shaped(items.drop_last());
        law_dot_parts_join(bare_name(item.name));
        lemma_inserted_shaped(
            planted(items.drop_last()),
            dot_parts(bare_name(item.name)),
            item,
            kind_of(item.name),
        );
    }
}

proof fn lemma_inserted_shaped(nodes: Seq<NavTreeView>, path: Seq<Seq<char>>, item: NavItemView, kind: Seq<char>)
    requires
        path.len() > 0,
        forall|i: int| 0 <= i < path.len() ==> !(#[trigger] path[i]).contains('.'),
        shaped(nodes),
    ensures
        shaped(inserted(nodes, path, item, kind)),
        inserted(nodes, path, item, kind).len() > 0,
    decreases path.len(),
{
    let result = inserted(nodes, path, item, kind);
    if path.len() == 1 {
        let new = leaf(path[0], item, kind);
        assert forall|i: int| 0 <= i < result.len() implies node_shaped(#[trigger] result[i]) by {
            if i < nodes.len() {
                assert(result[i] == nodes[i]);
            } else {
                assert(result[i] == new);
            }
        }
        assert forall|i: int, j: int| 0 <= i < result.len() && 0 <= j < result.len() && i != j implies apart(
            #[trigger] result[i],
            #[trigger] result[j],
        ) by {
            if i < nodes.len() && j < nodes.len() {
                assert(result[i] == nodes[i] && result[j] == nodes[j]);
            }
        }
    } else {
        let head = path[0];
        let i = folder_at(nodes, head);
        lemma_folder_at(nodes, head);
        let all = if i < nodes.len() {
            nodes
        } else {
            nodes.push(empty_folder(head))
        };
        let node = all[i];
        assert(shaped(node.children)) by {
            if i < nodes.len() {
                assert(node_shaped(nodes[i]));
            }
        }
        assert(!path[0].contains('.'));
        assert forall|j: int| 0 <= j < path.skip(1).len() implies !(#[trigger] path.skip(1)[j]).contains('.') by {
            assert(path.skip(1)[j] == path[j + 1]);
        }
        lemma_inserted_shaped(node.children, path.skip(1), item, kind);
        let grown = NavTreeView { children: inserted(node.children, path.skip(1), item, kind), ..node };
        assert(node_shaped(grown)) by {
            if i < nodes.len() {
                assert(node_shaped(nodes[i]));
            }
        }
        assert(result == all.update(i, grown));
        assert forall|j: int| 0 <= j < result.len() implies node_shaped(#[trigger] result[j]) by {
            if j != i {
                assert(result[j] == nodes[j]);
            }
        }
        assert forall|j: int, k: int| 0 <= j < result.len() && 0 <= k < result.len() && j != k implies apart(
            #[trigger] result[j],
            #[trigger] result[k],
        ) by {
            if j < nodes.len() && k < nodes.len() {
                assert(apart(nodes[j], nodes[k]));
            } else if j < nodes.len() {
                assert(!is_folder(nodes[j], head));
            } else if k < nodes.len() {
                assert(!is_folder(nodes[k], head));
            }
        }
    }
}

proof fn lemma_sorted_shaped(nodes: Seq<NavTreeView>)
    requires
        shaped(nodes),
    ensures
        shaped(sorted_forest(nodes)),
        sorted_forest(nodes).len() == nodes.len(),
    decreases nodes,
{
    let below = sorted_below(nodes);
    let p = |n: NavTreeView| node_shaped(n);
    let r = |a: NavTreeView, b: NavTreeView| apart(a, b);
    assert forall|i: int| 0 <= i < below.len() implies p(#[trigger] below[i]) by {
        let node = nodes[i];
        assert(below[i] == sorted_node(node));
        assert(node_shaped(node));
        if node.href is Some {
            assert(sorted_below(node.children) =~= Seq::empty());
        } else {
            lemma_sorted_shaped(node.children);
        }
    }
    assert forall|i: int, j: int| 0 <= i < below.len() && 0 <= j < below.len() && i != j implies r(
        #[trigger] below[i],
        #[trigger] below[j],
    ) by {
        assert(below[i] == sorted_node(nodes[i]) && below[j] == sorted_node(nodes[j]));
        assert(apart(nodes[i], nodes[j]));
    }
    lemma_sorted_by_each(below, label_of(), p);
    lemma_sorted_by_pairwise(below, label_of(), r);
    let sorted = sorted_forest(nodes);
    assert forall|i: int| 0 <= i < sorted.len() implies node_shaped(#[trigger] sorted[i]) by {
        assert(p(sorted_by(below, label_of())[i]));
    }
    assert forall|i: int, j: int| 0 <= i < sorted.len() && 0 <= j < sorted.len() && i != j implies apart(
        #[trigger] sorted[i],
        #[trigger] sorted[j],
    ) by {
        assert(r(sorted[i], sorted[j]));
    }
}

proof fn lemma_opened_shaped(nodes: Seq<NavTreeView>)
    requires
        shaped(nodes),
    ensures
        shaped(opened_forest(nodes)),
    decreases nodes,
{
    let opened = opened_forest(nodes);
    assert forall|i: int| 0 <= i < opened.len() implies node_shaped(#[trigger] opened[i]) by {
        assert(opened[i] == opened_node(nodes[i]));
        assert(node_shaped(nodes[i]));
        if nodes[i].href is None {
            lemma_opened_shaped(nodes[i].children);
        }
    }
    assert forall|i: int, j: int| 0 <= i < opened.len() && 0 <= j < opened.len() && i != j implies apart(
        #[trigger] opened[i],
        #[trigger] opened[j],
    ) by {
        assert(opened[i] == opened_node(nodes[i]) && opened[j] == opened_node(nodes[j]));
        assert(apart(nodes[i], nodes[j]));
    }
}

/// Whether no node is open, at any level.
pub open spec fn closed_tree(nodes: Seq<NavTreeView>) -> bool
    decreases nodes,
{
    forall|i: int|
        0 <= i < nodes.len() ==> {
            let node = #[trigger] nodes[i];
            !node.open && closed_tree(node.children)
        }
}

/// Whether at every level exactly the folders are open that have an active leaf
/// under them.
pub open spec fn open_where_active(nodes: Seq<NavTreeView>) -> bool
    decreases nodes,
{
    forall|i: int|
        0 <= i < nodes.len() ==> {
            let node = #[trigger] nodes[i];
            (node.open <==> forest_active(node.children)) && open_where_active(node.children)
        }
}

/// A folder of the tree is open if and only if the active entry is somewhere
/// under it; a leaf is never open.
pub proof fn law_tree_is_open_where_active(items: Seq<NavItemView>)
    ensures
        open_where_active(type_tree(items)),
{
    lemma_planted_shaped(items);
    lemma_planted_closed(items);
    lemma_sorted_shaped(planted(items));
    lemma_sorted_closed(planted(items));
    lemma_opened_where_active(sorted_forest(planted(items)));
}

proof fn lemma_planted_closed(items: Seq<NavItemView>)
    ensures
        closed_tree(planted(items)),
    decreases items.len(),
{
    if items.len() > 0 {
        let item = items.last();
        lemma_planted_closed(items.drop_last());
        law_dot_parts_join(bare_name(item.name));
        lemma_inserted_closed(
            planted(items.drop_last()),
            dot_parts(bare_name(item.name)),
            item,
            kind_of(item.name),
        );
    }
}

proof fn lemma_inserted_closed(nodes: Seq<NavTreeView>, path: Seq<Seq<char>>, item: NavItemView, kind: Seq<char>)
    requires
        path.len() > 0,
        closed_tree(nodes),
    ensures
        closed_tree(inserted(nodes, path, item, kind)),
    decreases path.len(),
{
    let result = inserted(nodes, path, item, kind);
    if path.len() > 1 {
        let i = folder_at(nodes, path[0]);
        lemma_folder_at(nodes, path[0]);
        let all = if i < nodes.len() {
            nodes
        } else {
            nodes.push(empty_folder(path[0]))
        };
        assert(!all[i].open && closed_tree(all[i].children)) by {
            if i < nodes.len() {
                assert(closed_tree(nodes[i].children));
            }
        }
        lemma_inserted_closed(all[i].children, path.skip(1), item, kind);
        assert forall|j: int| 0 <= j < result.len() implies {
            let node = #[trigger] result[j];
            !node.open && closed_tree(node.children)
        } by {
            if j != i {
                assert(result[j] == nodes[j]);
            }
        }
    } else {
        assert forall|j: int| 0 <= j < result.len() implies {
            let node = #[trigger] result[j];
            !node.open && closed_tree(node.children)
        } by {
            if j < nodes.len() {
                assert(result[j] == nodes[j]);
            }
        }
    }
}

proof fn lemma_sorted_closed(nodes: Seq<NavTreeView>)
    requires
        closed_tree(nodes),
    ensures
        closed_tree(sorted_forest(nodes)),
    decreases nodes,
{
    let below = sorted_below(nodes);
    let p = |n: NavTreeView| !n.open && closed_tree(n.children);
    assert forall|i: int| 0 <= i < below.len() implies p(#[trigger] below[i]) by {
        assert(below[i] == sorted_node(nodes[i]));
        assert(!nodes[i].open && closed_tree(nodes[i].children));
        lemma_sorted_closed(nodes[i].children);
    }
    lemma_sorted_by_each(below, label_of(), p);
    let sorted = sorted_forest(nodes);
    assert forall|i: int| 0 <= i < sorted.len() implies {
        let node = #[trigger] sorted[i];
        !node.open && closed_tree(node.children)
    } by {
        assert(p(sorted_by(below, label_of())[i]));
    }
}

proof fn lemma_opened_where_active(nodes: Seq<NavTreeView>)
    requires
        shaped(nodes),
        closed_tree(nodes),
    ensures
        open_where_active(opened_forest(nodes)),
        forest_active(opened_forest(nodes)) == forest_active(nodes),
    decreases nodes,
{
    let opened = opened_forest(nodes);
    assert forall|i: int| 0 <= i < opened.len() implies {
        let node = #[trigger] opened[i];
        &&& (node.open <==> forest_active(node.children)) && open_where_active(node.children)
        &&& node_active(node) == node_active(nodes[i])
    } by {
        let node = nodes[i];
        assert(opened[i] == opened_node(node));
        assert(node_shaped(node) && !node.open && closed_tree(node.children));
        if node.href is None {
            lemma_opened_where_active(node.children);
        } else {
            assert(node.children =~= Seq::empty());
            lemma_opened_where_active(node.children);
        }
    }
    if forest_active(nodes) {
        let i = choose|i: int| 0 <= i < nodes.len() && node_active(#[trigger] nodes[i]);
        assert(node_active(opened[i]));
    }
    if forest_active(opened) {
        let i = choose|i: int| 0 <= i < opened.len() && node_active(#[trigger] opened[i]);
        assert(node_active(nodes[i]));
    }
}

} // verus!

//! A tree of types is fixed by its leaves, so the order of the entries does not
//! matter.

use vstd::multiset::Multiset;
use vstd::prelude::*;
use crate::names::bare_name;
use crate::text::{dot_join, dot_parts, law_dot_parts_join, law_text_le_antisymmetric, text_le};
use crate::tree::{forest_active, type_tree};
use crate::tree_laws::{
    apart, in_order, law_tree_holds_each_entry_once, law_tree_is_in_order, law_tree_is_open_where_active,
    law_tree_is_shaped, leaf_of, leaves, leaves_of, node_leaves, node_shaped, open_where_active, shaped, Leaf,
};
use crate::types::{NavItemView, NavTreeView};

verus! {

/// Whether no leaf stands where another one stands, or below it.
pub open spec fn paths_apart(all: Multiset<Leaf>) -> bool {
    forall|x: Leaf, y: Leaf|
        #![trigger all.count(x), all.count(y)]
        all.count(x) > 0 && all.count(y) > 0 && x.path.is_prefix_of(y.path) ==> x == y && all.count(x) == 1
}

/// Two trees that are in order, of the right shape, open where something is active
/// and that have the same leaves are the same, where no leaf stands at or below
/// another.
pub proof fn law_leaves_fix_the_tree(a: Seq<NavTreeView>, b: Seq<NavTreeView>, above: Seq<Seq<char>>)
    requires
        in_order(a) && shaped(a) && open_where_active(a),
        in_order(b) && shaped(b) && open_where_active(b),
        leaves(a, above) == leaves(b, above),
        paths_apart(leaves(a, above)),
    ensures
        a == b,
    decreases a,
{
    if a.len() == 0 || b.len() == 0 {
        if a.len() > 0 {
            let x = lemma_some_leaf(a[a.len() - 1], above);
            lemma_leaf_among(a, above, a.len() - 1, x);
        }
        if b.len() > 0 {
            let x = lemma_some_leaf(b[b.len() - 1], above);
            lemma_leaf_among(b, above, b.len() - 1, x);
        }
        assert(a =~= b);
    } else {
        let (front_a, last_a) = (a.drop_last(), a.last());
        let (front_b, last_b) = (b.drop_last(), b.last());
        assert(a[a.len() - 1] == last_a && b[b.len() - 1] == last_b);
        lemma_front(a);
        lemma_front(b);
        lemma_last_label(a, b, above);
        lemma_last_label(b, a, above);
        law_text_le_antisymmetric(last_a.label, last_b.label);
        let label = last_a.label;
        let there = |x: Leaf| x.path.len() > above.len() && x.path[above.len() as int] == label;
        lemma_leaves_by_label(a, above, there);
        lemma_leaves_by_label(b, above, there);
        assert(node_leaves(last_a, above) == node_leaves(last_b, above));
        assert(leaves(front_a, above) =~= leaves(a, above).sub(node_leaves(last_a, above)));
        assert(leaves(front_b, above) =~= leaves(b, above).sub(node_leaves(last_b, above)));
        lemma_paths_apart_below(leaves(a, above), leaves(front_a, above));
        law_leaves_fix_the_tree(front_a, front_b, above);
        let x = lemma_some_leaf(last_a, above);
        lemma_leaf_path(last_a, above, x);
        lemma_leaf_path(last_b, above, x);
        if last_a.href is Some {
            assert(node_leaves(last_a, above).count(x) > 0 && node_leaves(last_b, above).count(x) > 0);
            assert(last_a.children =~= last_b.children);
        } else {
            lemma_paths_apart_below(leaves(a, above), node_leaves(last_a, above));
            law_leaves_fix_the_tree(last_a.children, last_b.children, above.push(label));
            assert(last_a.kind =~= last_b.kind);
        }
        assert(last_a == last_b);
        assert(a =~= front_a.push(last_a));
        assert(b =~= front_b.push(last_b));
    }
}

proof fn lemma_front(nodes: Seq<NavTreeView>)
    requires
        nodes.len() > 0,
        in_order(nodes) && shaped(nodes) && open_where_active(nodes),
    ensures
        in_order(nodes.drop_last()) && shaped(nodes.drop_last()) && open_where_active(nodes.drop_last()),
        ({
            let last = nodes.last();
            &&& node_shaped(last)
            &&& in_order(last.children)
            &&& open_where_active(last.children)
            &&& last.open == forest_active(last.children)
        }),
{
    let front = nodes.drop_last();
    assert(nodes[nodes.len() - 1] == nodes.last());
    assert forall|i: int| 0 <= i < front.len() implies front[i] == #[trigger] nodes[i] by {}
    assert(in_order(front)) by {
        assert forall|i: int, j: int| 0 <= i <= j < front.len() implies text_le(
            (#[trigger] front[i]).label,
            (#[trigger] front[j]).label,
        ) by {
            assert(text_le(nodes[i].label, nodes[j].label));
        }
        assert forall|i: int| 0 <= i < front.len() implies in_order((#[trigger] front[i]).children) by {
            assert(in_order(nodes[i].children));
        }
    }
    assert(shaped(front)) by {
        assert forall|i: int| 0 <= i < front.len() implies node_shaped(#[trigger] front[i]) by {
            assert(node_shaped(nodes[i]));
        }
        assert forall|i: int, j: int| 0 <= i < front.len() && 0 <= j < front.len() && i != j implies apart(
            #[trigger] front[i],
            #[trigger] front[j],
        ) by {
            assert(apart(nodes[i], nodes[j]));
        }
    }
    assert(open_where_active(front)) by {
        assert forall|i: int| 0 <= i < front.len() implies {
            let node = #[trigger] front[i];
            (node.open <==> forest_active(node.children)) && open_where_active(node.children)
        } by {
            let node = nodes[i];
            assert(open_where_active(node.children));
        }
    }
}

/// A leaf among nodes belongs to one of them.
pub proof fn lemma_leaf_source(nodes: Seq<NavTreeView>, above: Seq<Seq<char>>, x: Leaf) -> (i: int)
    requires
        leaves(nodes, above).count(x) > 0,
    ensures
        0 <= i < nodes.len(),
        node_leaves(nodes[i], above).count(x) > 0,
    decreases nodes.len(),
{
    if nodes.len() == 0 {
        0
    } else if node_leaves(nodes.last(), above).count(x) > 0 {
        nodes.len() - 1
    } else {
        lemma_leaf_source(nodes.drop_last(), above, x)
    }
}

/// A leaf of one of the nodes is a leaf among them.
pub proof fn lemma_leaf_among(nodes: Seq<NavTreeView>, above: Seq<Seq<char>>, i: int, x: Leaf)
    requires
        0 <= i < nodes.len(),
        node_leaves(nodes[i], above).count(x) > 0,
    ensures
        leaves(nodes, above).count(x) > 0,
    decreases nodes.len(),
{
    if i < nodes.len() - 1 {
        lemma_leaf_among(nodes.drop_last(), above, i, x);
    }
}

/// The path of a leaf leads through the nodes above it.
pub proof fn lemma_leaf_path(node: NavTreeView, above: Seq<Seq<char>>, x: Leaf)
    requires
        node_leaves(node, above).count(x) > 0,
    ensures
        above.push(node.label).is_prefix_of(x.path),
        x.path.len() > above.len(),
        x.path[above.len() as int] == node.label,
        node.href is Some ==> x.path == above.push(node.label),
        node.href is None ==> x.path.len() > above.len() + 1,
    decreases node,
{
    let path = above.push(node.label);
    if node.href is None {
        let i = lemma_leaf_source(node.children, path, x);
        lemma_leaf_path(node.children[i], path, x);
        let deeper = path.push(node.children[i].label);
        assert(path =~= x.path.subrange(0, path.len() as int)) by {
            assert(deeper == x.path.subrange(0, deeper.len() as int));
            assert forall|j: int| 0 <= j < path.len() implies path[j] == x.path[j] by {
                assert(path[j] == deeper[j]);
                assert(deeper[j] == x.path.subrange(0, deeper.len() as int)[j]);
            }
        }
    } else {
        assert(path =~= x.path.subrange(0, path.len() as int));
    }
    assert(x.path.subrange(0, path.len() as int)[above.len() as int] == node.label);
}

/// No node is without a leaf.
pub proof fn lemma_some_leaf(node: NavTreeView, above: Seq<Seq<char>>) -> (x: Leaf)
    requires
        node_shaped(node),
    ensures
        node_leaves(node, above).count(x) > 0,
    decreases node,
{
    let path = above.push(node.label);
    if node.href is Some {
        Leaf { path, data_name: node.data_name, kind: node.kind, href: node.href, active: node.active }
    } else {
        assert(node_shaped(node.children[node.children.len() - 1]));
        let x = lemma_some_leaf(node.children[node.children.len() - 1], path);
        lemma_leaf_among(node.children, path, node.children.len() - 1, x);
        x
    }
}

/// The last label of a tree does not come after that of another tree with the
/// same leaves.
proof fn lemma_last_label(a: Seq<NavTreeView>, b: Seq<NavTreeView>, above: Seq<Seq<char>>)
    requires
        a.len() > 0,
        b.len() > 0,
        shaped(a),
        in_order(b),
        leaves(a, above) == leaves(b, above),
    ensures
        text_le(a.last().label, b.last().label),
{
    let last = a[a.len() - 1];
    assert(node_shaped(last));
    let x = lemma_some_leaf(last, above);
    lemma_leaf_path(last, above, x);
    lemma_leaf_among(a, above, a.len() - 1, x);
    let j = lemma_leaf_source(b, above, x);
    lemma_leaf_path(b[j], above, x);
    assert(text_le(b[j].label, b[b.len() - 1].label));
}

/// The leaves under the last node are those whose path leads through its label.
proof fn lemma_leaves_by_label(nodes: Seq<NavTreeView>, above: Seq<Seq<char>>, there: spec_fn(Leaf) -> bool)
    requires
        nodes.len() > 0,
        shaped(nodes),
        paths_apart(leaves(nodes, above)),
        forall|x: Leaf| #[trigger]
            there(x) <==> x.path.len() > above.len() && x.path[above.len() as int] == nodes.last().label,
    ensures
        node_leaves(nodes.last(), above) == leaves(nodes, above).filter(there),
{
    let front = nodes.drop_last();
    let last = nodes.last();
    let all = leaves(nodes, above);
    assert(nodes[nodes.len() - 1] == last);
    assert forall|x: Leaf| node_leaves(last, above).count(x) == #[trigger] all.filter(there).count(x) by {
        if node_leaves(last, above).count(x) > 0 {
            lemma_leaf_path(last, above, x);
        }
        if leaves(front, above).count(x) > 0 {
            let i = lemma_leaf_source(front, above, x);
            lemma_leaf_path(front[i], above, x);
            if front[i].label == last.label {
                lemma_labels_differ(nodes, above, i);
            }
        }
    }
    assert(node_leaves(last, above) =~= all.filter(there));
}

/// No node has the label of the last one.
proof fn lemma_labels_differ(nodes: Seq<NavTreeView>, above: Seq<Seq<char>>, i: int)
    requires
        0 <= i < nodes.len() - 1,
        shaped(nodes),
        paths_apart(leaves(nodes, above)),
    ensures
        nodes[i].label != nodes.last().label,
{
    let all = leaves(nodes, above);
    let n = nodes.len() - 1;
    let (node, last) = (nodes[i], nodes[n]);
    assert(node_shaped(node) && node_shaped(last) && apart(node, last));
    if node.label == last.label {
        let x = lemma_some_leaf(node, above);
        let y = lemma_some_leaf(last, above);
        lemma_leaf_path(node, above, x);
        lemma_leaf_path(last, above, y);
        lemma_leaf_among(nodes, above, i, x);
        lemma_leaf_among(nodes, above, n, y);
        lemma_leaf_among(nodes.drop_last(), above, i, x);
        assert(all.count(x) > 0 && all.count(y) > 0);
        if node.href is Some {
            assert(x.path.is_prefix_of(y.path));
            assert(x == y);
            assert(all.count(x) >= 2);
        } else {
            assert(y.path.is_prefix_of(x.path));
        }
        assert(false);
    }
}

proof fn lemma_paths_apart_below(all: Multiset<Leaf>, part: Multiset<Leaf>)
    requires
        paths_apart(all),
        forall|x: Leaf| #[trigger] part.count(x) <= all.count(x),
    ensures
        paths_apart(part),
{
    assert forall|x: Leaf, y: Leaf|
        #![trigger part.count(x), part.count(y)]
        part.count(x) > 0 && part.count(y) > 0 && x.path.is_prefix_of(y.path) implies x == y && part.count(x)
        == 1 by {
        assert(all.count(x) > 0 && all.count(y) > 0);
    }
}

/// Whether the full names of the entries differ and none is in the namespace that
/// another one names.
pub open spec fn names_apart(items: Seq<NavItemView>) -> bool {
    forall|i: int, j: int|
        0 <= i < items.len() && 0 <= j < items.len() && i != j ==> bare_name((#[trigger] items[i]).name) != bare_name(
            (#[trigger] items[j]).name,
        ) && !bare_name(items[i].name).push('.').is_prefix_of(bare_name(items[j].name))
}

/// The order in which the entries come does not show in the tree, where their full
/// names differ and none is in the namespace that another one names.
pub proof fn law_tree_ignores_order(p: Seq<NavItemView>, q: Seq<NavItemView>)
    requires
        p.to_multiset() == q.to_multiset(),
        names_apart(p),
    ensures
        type_tree(p) == type_tree(q),
{
    let top = Seq::<Seq<char>>::empty();
    law_tree_holds_each_entry_once(p);
    law_tree_holds_each_entry_once(q);
    law_tree_is_in_order(p);
    law_tree_is_in_order(q);
    law_tree_is_shaped(p);
    law_tree_is_shaped(q);
    law_tree_is_open_where_active(p);
    law_tree_is_open_where_active(q);
    lemma_leaves_of_permuted(p, q);
    lemma_leaves_of_apart(p);
    law_leaves_fix_the_tree(type_tree(p), type_tree(q), top);
}

proof fn lemma_leaves_of_permuted(p: Seq<NavItemView>, q: Seq<NavItemView>)
    requires
        p.to_multiset() == q.to_multiset(),
    ensures
        leaves_of(p) == leaves_of(q),
    decreases p.len(),
{
    broadcast use vstd::seq_lib::group_to_multiset_ensures;

    assert(p.to_multiset().len() == p.len() && q.to_multiset().len() == q.len());
    if p.len() > 0 {
        let item = p.last();
        assert(p.drop_last().push(item) =~= p);
        assert(p.contains(item));
        assert(q.to_multiset().count(item) > 0);
        let k = choose|k: int| 0 <= k < q.len() && q[k] == item;
        assert(p.drop_last().to_multiset() =~= q.remove(k).to_multiset());
        lemma_leaves_of_permuted(p.drop_last(), q.remove(k));
        lemma_leaves_of_remove(q, k);
    }
}

proof fn lemma_leaves_of_remove(items: Seq<NavItemView>, k: int)
    requires
        0 <= k < items.len(),
    ensures
        leaves_of(items) == leaves_of(items.remove(k)).insert(leaf_of(items[k])),
    decreases items.len(),
{
    if k == items.len() - 1 {
        assert(items.remove(k) =~= items.drop_last());
    } else {
        let front = items.drop_last();
        lemma_leaves_of_remove(front, k);
        assert(items.remove(k).drop_last() =~= front.remove(k));
        assert(items.remove(k).last() == items.last());
        assert(leaves_of(items) =~= leaves_of(items.remove(k)).insert(leaf_of(items[k])));
    }
}

/// The leaf of an entry stands neither at nor below that of another entry.
proof fn lemma_leaves_of_apart(items: Seq<NavItemView>)
    requires
        names_apart(items),
    ensures
        paths_apart(leaves_of(items)),
    decreases items.len(),
{
    if items.len() > 0 {
        let front = items.drop_last();
        let item = items.last();
        let last = leaf_of(item);
        let all = leaves_of(items);
        let n = items.len() - 1;
        assert(names_apart(front)) by {
            assert forall|i: int, j: int| 0 <= i < front.len() && 0 <= j < front.len() && i != j implies bare_name(
                (#[trigger] front[i]).name,
            ) != bare_name((#[trigger] front[j]).name) && !bare_name(front[i].name).push('.').is_prefix_of(
                bare_name(front[j].name),
            ) by {
                assert(front[i] == items[i] && front[j] == items[j]);
            }
        }
        lemma_leaves_of_apart(front);
        assert forall|x: Leaf| #[trigger] leaves_of(front).count(x) > 0 implies !x.path.is_prefix_of(last.path)
            && !last.path.is_prefix_of(x.path) by {
            let i = lemma_leaves_of_source(front, x);
            assert(front[i] == items[i] && items[n] == item);
            lemma_part_prefix(bare_name(items[i].name), bare_name(item.name));
            lemma_part_prefix(bare_name(item.name), bare_name(items[i].name));
        }
        assert(last.path.is_prefix_of(last.path));
        assert(leaves_of(front).count(last) == 0);
        assert forall|x: Leaf, y: Leaf|
            #![trigger all.count(x), all.count(y)]
            all.count(x) > 0 && all.count(y) > 0 && x.path.is_prefix_of(y.path) implies x == y && all.count(x)
            == 1 by {
            if x != last {
                assert(leaves_of(front).count(x) > 0);
            }
            if y != last {
                assert(leaves_of(front).count(y) > 0);
            }
        }
    }
}

proof fn lemma_leaves_of_source(items: Seq<NavItemView>, x: Leaf) -> (i: int)
    requires
        leaves_of(items).count(x) > 0,
    ensures
        0 <= i < items.len(),
        leaf_of(items[i]) == x,
    decreases items.len(),
{
    if items.len() == 0 {
        0
    } else if leaf_of(items.last()) == x {
        items.len() - 1
    } else {
        lemma_leaves_of_source(items.drop_last(), x)
    }
}

/// A name whose parts another one begins with is that name, or names a namespace
/// that the other one is in.
proof fn lemma_part_prefix(f: Seq<char>, g: Seq<char>)
    requires
        f != g,
        !f.push('.').is_prefix_of(g),
    ensures
        !dot_parts(f).is_prefix_of(dot_parts(g)),
{
    let (p, q) = (dot_parts(f), dot_parts(g));
    law_dot_parts_join(f);
    law_dot_parts_join(g);
    if p.is_prefix_of(q) {
        let rest = q.skip(p.len() as int);
        assert(p == q.subrange(0, p.len() as int));
        assert(q =~= p + rest);
        if rest.len() == 0 {
            assert(q =~= p);
        } else {
            lemma_join_prefix(p, rest);
        }
    }
}

proof fn lemma_join_prefix(p: Seq<Seq<char>>, rest: Seq<Seq<char>>)
    requires
        p.len() > 0,
        rest.len() > 0,
    ensures
        dot_join(p).push('.').is_prefix_of(dot_join(p + rest)),
    decreases rest.len(),
{
    let all = p + rest;
    let start = dot_join(p).push('.');
    let shorter = p + rest.drop_last();
    assert(all.drop_last() =~= shorter);
    let text = dot_join(shorter).push('.');
    if rest.len() == 1 {
        assert(shorter =~= p);
    } else {
        lemma_join_prefix(p, rest.drop_last());
        assert(start == dot_join(shorter).subrange(0, start.len() as int));
        assert(text.subrange(0, start.len() as int) =~= dot_join(shorter).subrange(0, start.len() as int));
    }
    assert(dot_join(all) == text + all.last());
    assert(dot_join(all).subrange(0, start.len() as int) =~= text.subrange(0, start.len() as int));
    assert(text.subrange(0, start.len() as int) =~= start);
}

} // verus!

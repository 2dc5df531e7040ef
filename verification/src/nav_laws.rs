//! What holds of the navigation of every page.

use vstd::prelude::*;
use crate::groups::{divides, law_groups_divide_the_entries};
use crate::names::{bare_name, kind_of};
use crate::nav::{finalized_nav, first_named, lemma_first_named, lettered_nav, marked, marked_nav, name_of, sorted_nav};
use crate::render_laws::{
    holds, is_sidebar, law_sidebar_links_every_leaf, law_sidebar_shows_all_categories, tree_entry,
};
use crate::sort::{has_key, law_sorted_by_is_permutation, law_sorted_by_is_stable_order, sorted_by, with_key};
use crate::text::{dot_parts, is_upper_of, text_le};
use crate::tree::type_tree;
use crate::tree_branches::{law_tree_is_open_above_active_leaves, open_above_active};
use crate::tree_laws::{
    in_order, law_tree_holds_each_entry_once, law_tree_is_in_order, law_tree_is_shaped, leaf_of, leaves, leaves_of,
    shaped,
};
use crate::tree_order::{lemma_leaf_among, lemma_some_leaf};
use crate::types::{NavItemView, NavModelView};

verus! {

/// The test whether an entry has the given name.
pub open spec fn named(name: Seq<char>) -> spec_fn(NavItemView) -> bool {
    |item: NavItemView| item.name == name
}

/// Whether `after` is `before` in ascending order of names, entries with one name
/// staying in their order.
pub open spec fn in_name_order(after: Seq<NavItemView>, before: Seq<NavItemView>) -> bool {
    &&& after.to_multiset() == before.to_multiset()
    &&& forall|i: int, j: int|
        0 <= i <= j < after.len() ==> text_le((#[trigger] after[i]).name, (#[trigger] after[j]).name)
    &&& forall|name: Seq<char>| #[trigger] after.filter(named(name)) == before.filter(named(name))
}

/// Sorting orders each category by name and changes nothing else.
pub proof fn law_sorting_orders_each_category(nav: NavModelView)
    ensures
        ({
            let after = sorted_nav(nav);
            &&& in_name_order(after.types, nav.types)
            &&& in_name_order(after.modules, nav.modules)
            &&& in_name_order(after.globals, nav.globals)
            &&& after == (NavModelView {
                types: after.types,
                modules: after.modules,
                globals: after.globals,
                ..nav
            })
        }),
{
    lemma_in_name_order(nav.types);
    lemma_in_name_order(nav.modules);
    lemma_in_name_order(nav.globals);
}

proof fn lemma_in_name_order(items: Seq<NavItemView>)
    ensures
        in_name_order(sorted_by(items, name_of()), items),
{
    let after = sorted_by(items, name_of());
    law_sorted_by_is_stable_order(items, name_of());
    law_sorted_by_is_permutation(items, name_of());
    assert forall|i: int, j: int| 0 <= i <= j < after.len() implies text_le(
        (#[trigger] after[i]).name,
        (#[trigger] after[j]).name,
    ) by {
        assert(text_le(name_of()(after[i]), name_of()(after[j])));
    }
    assert forall|name: Seq<char>| #[trigger] after.filter(named(name)) == items.filter(named(name)) by {
        assert(has_key(name_of(), name) =~= named(name));
        assert(with_key(after, name_of(), name) == with_key(items, name_of(), name));
    }
}

/// Whether `after` is `before` with the badge of each entry filled in: the first
/// letter of its kind in upper case.
pub open spec fn has_badges(after: Seq<NavItemView>, before: Seq<NavItemView>) -> bool {
    &&& after.len() == before.len()
    &&& forall|i: int|
        0 <= i < after.len() ==> {
            let letter = (#[trigger] after[i]).kind_letter;
            &&& after[i] == (NavItemView { kind_letter: letter, ..before[i] })
            &&& before[i].kind.len() == 0 ==> letter.len() == 0
            &&& before[i].kind.len() > 0 ==> letter.len() == 1 && is_upper_of(letter[0], before[i].kind[0])
        }
}

/// Every entry gets its badge, and nothing else changes.
pub proof fn law_every_entry_gets_its_badge(nav: NavModelView)
    ensures
        ({
            let after = lettered_nav(nav);
            &&& has_badges(after.types, nav.types)
            &&& has_badges(after.modules, nav.modules)
            &&& has_badges(after.globals, nav.globals)
            &&& after == (NavModelView {
                types: after.types,
                modules: after.modules,
                globals: after.globals,
                ..nav
            })
        }),
{
}

/// Whether `after` is `before` with the first entry of the given name active.
pub open spec fn marks_first(after: Seq<NavItemView>, before: Seq<NavItemView>, name: Seq<char>) -> bool {
    &&& after.len() == before.len()
    &&& forall|i: int|
        0 <= i < after.len() ==> {
            let is_first = before[i].name == name && forall|j: int|
                0 <= j < i ==> (#[trigger] before[j]).name != name;
            #[trigger] after[i] == (NavItemView { active: before[i].active || is_first, ..before[i] })
        }
}

/// Whether the entries of `after` are those of `before` with the page marked: the
/// page of a module among the modules, that of a global among the globals, and that
/// of a type, by its kind, a space and its name, among the types.
pub open spec fn marks_page(after: NavModelView, before: NavModelView, kind: Seq<char>, name: Seq<char>) -> bool {
    if kind == seq!['m', 'o', 'd', 'u', 'l', 'e'] {
        &&& marks_first(after.modules, before.modules, name)
        &&& after.types == before.types
        &&& after.globals == before.globals
    } else if kind == seq!['g', 'l', 'o', 'b', 'a', 'l'] {
        &&& marks_first(after.globals, before.globals, name)
        &&& after.types == before.types
        &&& after.modules == before.modules
    } else {
        &&& marks_first(after.types, before.types, kind + seq![' '] + name)
        &&& after.modules == before.modules
        &&& after.globals == before.globals
    }
}

/// Marking a page marks it in its category, and nothing else changes.
pub proof fn law_pages_are_marked_in_their_category(nav: NavModelView, kind: Seq<char>, name: Seq<char>)
    ensures
        ({
            let after = marked_nav(nav, kind, name);
            &&& marks_page(after, nav, kind, name)
            &&& after == (NavModelView {
                types: after.types,
                modules: after.modules,
                globals: after.globals,
                ..nav
            })
        }),
{
    reveal_strlit("module");
    reveal_strlit("global");
    reveal_strlit(" ");
    assert("module"@ =~= seq!['m', 'o', 'd', 'u', 'l', 'e']);
    assert("global"@ =~= seq!['g', 'l', 'o', 'b', 'a', 'l']);
    assert(" "@ =~= seq![' ']);
    lemma_marks_first(nav.modules, name);
    lemma_marks_first(nav.globals, name);
    lemma_marks_first(nav.types, kind + seq![' '] + name);
}

proof fn lemma_marks_first(items: Seq<NavItemView>, name: Seq<char>)
    ensures
        marks_first(marked(items, name), items, name),
{
    let after = marked(items, name);
    let k = first_named(items, name);
    lemma_first_named(items, name);
    assert forall|i: int| 0 <= i < after.len() implies {
        let is_first = items[i].name == name && forall|j: int| 0 <= j < i ==> (#[trigger] items[j]).name != name;
        #[trigger] after[i] == (NavItemView { active: items[i].active || is_first, ..items[i] })
    } by {
        if i > k {
            assert(items[k].name == name);
        }
    }
}

/// What an entry of the tree of types shows in the sidebar: its link, its badge, and
/// the last part of its full name.
pub open spec fn type_entry_html(item: NavItemView, prefix: Seq<char>) -> Seq<char> {
    tree_entry(
        item.name,
        prefix,
        item.href,
        item.active,
        kind_of(item.name),
        dot_parts(bare_name(item.name)).last(),
    )
}

/// Whether all that is derived from the entries of the navigation is theirs: the
/// groups of each category hold the entries of that category, the tree those of the
/// types, and the sidebar links every type, module and global under the title and
/// the number of its category.
pub open spec fn is_derived(nav: NavModelView) -> bool {
    &&& divides(nav.type_groups, nav.types)
    &&& divides(nav.module_groups, nav.modules)
    &&& divides(nav.global_groups, nav.globals)
    &&& leaves(nav.type_tree, Seq::empty()) == leaves_of(nav.types)
    &&& nav.type_tree.len() > 0 <==> nav.types.len() > 0
    &&& in_order(nav.type_tree)
    &&& shaped(nav.type_tree)
    &&& open_above_active(nav.type_tree, Seq::empty())
    &&& exists|types: Seq<char>, modules: Seq<char>, globals: Seq<char>| #[trigger]
        is_sidebar(nav.sidebar_html, nav, types, modules, globals)
    &&& forall|i: int|
        0 <= i < nav.types.len() ==> holds(nav.sidebar_html, type_entry_html(#[trigger] nav.types[i], nav.root_prefix))
}

/// Finalizing derives all that there is to derive from the entries, and keeps the
/// entries, the name of the site and the way to its root.
pub proof fn law_finalizing_derives_everything(nav: NavModelView)
    ensures
        ({
            let after = finalized_nav(nav);
            &&& is_derived(after)
            &&& after.types == nav.types
            &&& after.modules == nav.modules
            &&& after.globals == nav.globals
            &&& after.site_name == nav.site_name
            &&& after.root_prefix == nav.root_prefix
        }),
{
    let after = finalized_nav(nav);
    let tree = type_tree(nav.types);
    let top = Seq::<Seq<char>>::empty();
    let derived = NavModelView { sidebar_html: nav.sidebar_html, ..after };
    law_groups_divide_the_entries(nav.types);
    law_groups_divide_the_entries(nav.modules);
    law_groups_divide_the_entries(nav.globals);
    law_tree_holds_each_entry_once(nav.types);
    law_tree_is_in_order(nav.types);
    law_tree_is_shaped(nav.types);
    law_tree_is_open_above_active_leaves(nav.types);
    if nav.types.len() > 0 {
        lemma_leaves_of_member(nav.types, 0);
        assert(tree.len() > 0);
    }
    if tree.len() > 0 {
        let x = lemma_some_leaf(tree[0], top);
        lemma_leaf_among(tree, top, 0, x);
        assert(leaves_of(nav.types).count(x) > 0);
    }
    let (types, modules, globals) = law_sidebar_shows_all_categories(derived);
    assert(is_sidebar(after.sidebar_html, after, types, modules, globals));
    assert forall|i: int| 0 <= i < after.types.len() implies holds(
        after.sidebar_html,
        type_entry_html(#[trigger] after.types[i], after.root_prefix),
    ) by {
        lemma_leaves_of_member(nav.types, i);
        law_sidebar_links_every_leaf(derived, leaf_of(nav.types[i]));
    }
}

proof fn lemma_leaves_of_member(items: Seq<NavItemView>, i: int)
    requires
        0 <= i < items.len(),
    ensures
        leaves_of(items).count(leaf_of(items[i])) > 0,
    decreases items.len(),
{
    if i < items.len() - 1 {
        lemma_leaves_of_member(items.drop_last(), i);
    }
}

} // verus!

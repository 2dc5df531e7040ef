//! The navigation of a page.

use vstd::prelude::*;
use crate::groups::{build_groups, grouped};
use crate::names::display_name;
use crate::render::{build_sidebar_html, sidebar};
use crate::sort::{
    ascending, key_of, law_sorted_by_is_permutation, law_sorted_by_is_stable_order, law_stable_order_is_unique,
    lemma_sorted_by_map, sort_by_key, sorted_by,
};
use crate::text::{initial, initial_of, same_text};
use crate::tree::{build_type_tree, type_tree};
use crate::types::{item_views, NavItem, NavItemView, NavModel, NavModelView};

verus! {

/// The name of an entry, as a function.
pub open spec fn name_of() -> spec_fn(NavItemView) -> Seq<char> {
    |item: NavItemView| item.name
}

/// The navigation with the entries of each category in stable order of their
/// names.
pub open spec fn sorted_nav(nav: NavModelView) -> NavModelView {
    NavModelView {
        types: sorted_by(nav.types, name_of()),
        modules: sorted_by(nav.modules, name_of()),
        globals: sorted_by(nav.globals, name_of()),
        ..nav
    }
}

/// Sorts the entries of each category by name.
pub fn sort_nav(nav: &mut NavModel)
    ensures
        final(nav)@ == sorted_nav(old(nav)@),
{
    sort_by_key(&mut nav.types);
    sort_by_key(&mut nav.modules);
    sort_by_key(&mut nav.globals);
    proof {
        lemma_sorted_items(old(nav).types@);
        lemma_sorted_items(old(nav).modules@);
        lemma_sorted_items(old(nav).globals@);
    }
}

proof fn lemma_sorted_items(items: Seq<NavItem>)
    ensures
        item_views(sorted_by(items, key_of::<NavItem>())) == sorted_by(item_views(items), name_of()),
{
    let f = |item: NavItem| item@;
    lemma_sorted_by_map(items, f, key_of::<NavItem>(), name_of());
    assert(item_views(items) =~= items.map_values(f));
    let sorted = sorted_by(items, key_of::<NavItem>());
    assert(item_views(sorted) =~= sorted.map_values(f));
}

/// An entry with its badge.
pub open spec fn with_letter(item: NavItemView) -> NavItemView {
    NavItemView { kind_letter: initial(item.kind, Seq::empty()), ..item }
}

/// Entries with their badges.
pub open spec fn with_letters(items: Seq<NavItemView>) -> Seq<NavItemView> {
    items.map_values(|item: NavItemView| with_letter(item))
}

/// The navigation with a badge on every entry.
pub open spec fn lettered_nav(nav: NavModelView) -> NavModelView {
    NavModelView {
        types: with_letters(nav.types),
        modules: with_letters(nav.modules),
        globals: with_letters(nav.globals),
        ..nav
    }
}

/// Fills in the badge of every entry.
pub fn fill_kind_letters(nav: &mut NavModel)
    ensures
        final(nav)@ == lettered_nav(old(nav)@),
{
    fill_letters(&mut nav.types);
    fill_letters(&mut nav.modules);
    fill_letters(&mut nav.globals);
}

fn fill_letters(items: &mut Vec<NavItem>)
    ensures
        item_views(final(items)@) == with_letters(item_views(old(items)@)),
{
    let ghost start = items@;
    let mut i: usize = 0;
    while i < items.len()
        invariant
            i <= items.len(),
            items@.len() == start.len(),
            forall|j: int| 0 <= j < i ==> (#[trigger] items@[j])@ == with_letter(start[j]@),
            forall|j: int| i <= j < items@.len() ==> #[trigger] items@[j] == start[j],
        decreases items.len() - i,
    {
        proof {
            reveal_strlit("");
            assert(""@ =~= Seq::<char>::empty());
        }
        let letter = initial_of(items[i].kind.as_str(), "");
        items[i].kind_letter = letter;
        i = i + 1;
    }
    assert(item_views(items@) =~= with_letters(item_views(start)));
}

/// What the entry of the page `name` of kind `kind` shows.
pub open spec fn entry_name(kind: Seq<char>, name: Seq<char>) -> Seq<char> {
    if kind == "module"@ || kind == "global"@ {
        name
    } else {
        display_name(kind, name)
    }
}

/// The place of the first entry with the given name; the number of entries where
/// there is none.
pub open spec fn first_named(items: Seq<NavItemView>, name: Seq<char>) -> int
    decreases items.len(),
{
    if items.len() == 0 {
        0
    } else {
        let i = first_named(items.drop_last(), name);
        if i < items.len() - 1 || items.last().name == name {
            i
        } else {
            items.len() as int
        }
    }
}

/// The entries with the one at `i` active.
pub open spec fn activated(items: Seq<NavItemView>, i: int) -> Seq<NavItemView> {
    items.update(i, NavItemView { active: true, ..items[i] })
}

/// The entries with the first of that name active; unchanged where there is none.
pub open spec fn marked(items: Seq<NavItemView>, name: Seq<char>) -> Seq<NavItemView> {
    let i = first_named(items, name);
    if i < items.len() {
        activated(items, i)
    } else {
        items
    }
}

/// The entries among which pages of the given kind are listed.
pub open spec fn items_for(nav: NavModelView, kind: Seq<char>) -> Seq<NavItemView> {
    if kind == "module"@ {
        nav.modules
    } else if kind == "global"@ {
        nav.globals
    } else {
        nav.types
    }
}

/// The navigation with the entry of the page `name` of kind `kind` active;
/// unchanged where it has none.
pub open spec fn marked_nav(nav: NavModelView, kind: Seq<char>, name: Seq<char>) -> NavModelView {
    let items = marked(items_for(nav, kind), entry_name(kind, name));
    if kind == "module"@ {
        NavModelView { modules: items, ..nav }
    } else if kind == "global"@ {
        NavModelView { globals: items, ..nav }
    } else {
        NavModelView { types: items, ..nav }
    }
}

/// Marks the entry of the page `name` of kind `kind` as active.
pub fn mark_active(nav: &mut NavModel, kind: &str, name: &str)
    ensures
        final(nav)@ == marked_nav(old(nav)@, kind@, name@),
{
    if same_text(kind, "module") {
        activate_first(&mut nav.modules, name);
    } else if same_text(kind, "global") {
        activate_first(&mut nav.globals, name);
    } else {
        let mut target: String = kind.to_string();
        target.append(" ");
        target.append(name);
        activate_first(&mut nav.types, target.as_str());
    }
}

/// Marks the first entry with the given name as active.
fn activate_first(items: &mut Vec<NavItem>, name: &str)
    ensures
        item_views(final(items)@) == marked(item_views(old(items)@), name@),
{
    let ghost views = item_views(items@);
    let mut i: usize = 0;
    assert(views.take(0) =~= Seq::empty());
    while i < items.len()
        invariant
            i <= items.len(),
            views == item_views(old(items)@),
            items@ == old(items)@,
            first_named(views.take(i as int), name@) == i,
        decreases items.len() - i,
    {
        proof {
            assert(views.take(i + 1).drop_last() =~= views.take(i as int));
        }
        if same_text(items[i].name.as_str(), name) {
            proof {
                lemma_first_named_prefix(views, i + 1, name@);
            }
            items[i].active = true;
            assert(item_views(items@) =~= activated(views, i as int));
            return ;
        }
        i = i + 1;
    }
    assert(views.take(i as int) =~= views);
}

proof fn lemma_first_named_prefix(items: Seq<NavItemView>, n: int, name: Seq<char>)
    requires
        0 <= n <= items.len(),
        first_named(items.take(n), name) < n,
    ensures
        first_named(items, name) == first_named(items.take(n), name),
    decreases items.len() - n,
{
    if n == items.len() {
        assert(items.take(n) =~= items);
    } else {
        assert(items.take(n + 1).drop_last() =~= items.take(n));
        lemma_first_named_prefix(items, n + 1, name);
    }
}

/// The navigation with all that is derived from its entries: the groups, the
/// tree and the sidebar.
pub open spec fn finalized_nav(nav: NavModelView) -> NavModelView {
    let derived = NavModelView {
        type_groups: grouped(nav.types),
        module_groups: grouped(nav.modules),
        global_groups: grouped(nav.globals),
        type_tree: type_tree(nav.types),
        ..nav
    };
    NavModelView { sidebar_html: sidebar(derived), ..derived }
}

/// Prepares the navigation for rendering.
pub fn finalize_nav(nav: &mut NavModel)
    ensures
        final(nav)@ == finalized_nav(old(nav)@),
{
    nav.type_groups = build_groups(nav.types.as_slice());
    nav.module_groups = build_groups(nav.modules.as_slice());
    nav.global_groups = build_groups(nav.globals.as_slice());
    nav.type_tree = build_type_tree(nav.types.as_slice());
    nav.sidebar_html = build_sidebar_html(nav);
}

/// Sorting leaves every category with its own entries, in ascending order of
/// their names.
pub proof fn law_sorted_nav_keeps_entries(nav: NavModelView)
    ensures
        ({
            let sorted = sorted_nav(nav);
            &&& ascending(sorted.types, name_of())
            &&& ascending(sorted.modules, name_of())
            &&& ascending(sorted.globals, name_of())
            &&& sorted.types.to_multiset() == nav.types.to_multiset()
            &&& sorted.modules.to_multiset() == nav.modules.to_multiset()
            &&& sorted.globals.to_multiset() == nav.globals.to_multiset()
        }),
{
    law_sorted_by_is_stable_order(nav.types, name_of());
    law_sorted_by_is_stable_order(nav.modules, name_of());
    law_sorted_by_is_stable_order(nav.globals, name_of());
    law_sorted_by_is_permutation(nav.types, name_of());
    law_sorted_by_is_permutation(nav.modules, name_of());
    law_sorted_by_is_permutation(nav.globals, name_of());
}

/// Sorting what is sorted changes nothing.
pub proof fn law_sorted_nav_is_settled(nav: NavModelView)
    ensures
        sorted_nav(sorted_nav(nav)) == sorted_nav(nav),
{
    lemma_sorted_twice(nav.types);
    lemma_sorted_twice(nav.modules);
    lemma_sorted_twice(nav.globals);
}

proof fn lemma_sorted_twice(items: Seq<NavItemView>)
    ensures
        sorted_by(sorted_by(items, name_of()), name_of()) == sorted_by(items, name_of()),
{
    let once = sorted_by(items, name_of());
    law_sorted_by_is_stable_order(items, name_of());
    law_sorted_by_is_stable_order(once, name_of());
    law_stable_order_is_unique(sorted_by(once, name_of()), once, name_of());
}

/// What is derived from the entries stays as it is when it is derived again.
pub proof fn law_finalized_nav_is_settled(nav: NavModelView)
    ensures
        finalized_nav(finalized_nav(nav)) == finalized_nav(nav),
{
}

/// How many entries are active.
pub open spec fn active_count(items: Seq<NavItemView>) -> nat
    decreases items.len(),
{
    if items.len() == 0 {
        0
    } else {
        active_count(items.drop_last()) + if items.last().active {
            1nat
        } else {
            0nat
        }
    }
}

/// How many entries of the navigation are active.
pub open spec fn nav_active_count(nav: NavModelView) -> nat {
    active_count(nav.types) + active_count(nav.modules) + active_count(nav.globals)
}

/// Whether there is an entry with the given name.
pub open spec fn has_entry(items: Seq<NavItemView>, name: Seq<char>) -> bool {
    exists|i: int| 0 <= i < items.len() && (#[trigger] items[i]).name == name
}

/// Whether every active entry has the given name.
pub open spec fn only_active(items: Seq<NavItemView>, name: Seq<char>) -> bool {
    forall|i: int| 0 <= i < items.len() && (#[trigger] items[i]).active ==> items[i].name == name
}

/// The entries without their active marks.
pub open spec fn unmarked(items: Seq<NavItemView>) -> Seq<NavItemView> {
    items.map_values(|item: NavItemView| NavItemView { active: false, ..item })
}

/// Marking a page in an unmarked navigation leaves exactly one entry active. It is
/// among the entries for pages of that kind and has the name that was asked for.
/// Where there is no such entry none becomes active. Nothing but the mark changes.
pub proof fn law_one_entry_is_active(nav: NavModelView, kind: Seq<char>, name: Seq<char>)
    requires
        nav_active_count(nav) == 0,
    ensures
        ({
            let after = marked_nav(nav, kind, name);
            let wanted = entry_name(kind, name);
            &&& nav_active_count(after) == if has_entry(items_for(nav, kind), wanted) {
                1nat
            } else {
                0nat
            }
            &&& active_count(items_for(after, kind)) == nav_active_count(after)
            &&& only_active(items_for(after, kind), wanted)
            &&& unmarked(after.types) == unmarked(nav.types)
            &&& unmarked(after.modules) == unmarked(nav.modules)
            &&& unmarked(after.globals) == unmarked(nav.globals)
            &&& NavModelView { types: nav.types, modules: nav.modules, globals: nav.globals, ..after } == nav
        }),
{
    lemma_activated(items_for(nav, kind), entry_name(kind, name));
}

proof fn lemma_activated(items: Seq<NavItemView>, name: Seq<char>)
    requires
        active_count(items) == 0,
    ensures
        0 <= first_named(items, name) <= items.len(),
        has_entry(items, name) == (first_named(items, name) < items.len()),
        only_active(items, name),
        first_named(items, name) < items.len() ==> {
            let marked = activated(items, first_named(items, name));
            &&& active_count(marked) == 1
            &&& only_active(marked, name)
            &&& unmarked(marked) == unmarked(items)
        },
{
    let i = first_named(items, name);
    lemma_first_named(items, name);
    lemma_active_none(items);
    if i < items.len() {
        lemma_active_one(items, i);
        assert(unmarked(activated(items, i)) =~= unmarked(items));
    }
}

pub proof fn lemma_first_named(items: Seq<NavItemView>, name: Seq<char>)
    ensures
        0 <= first_named(items, name) <= items.len(),
        first_named(items, name) < items.len() ==> items[first_named(items, name)].name == name,
        forall|j: int| 0 <= j < first_named(items, name) ==> (#[trigger] items[j]).name != name,
    decreases items.len(),
{
    if items.len() > 0 {
        let front = items.drop_last();
        lemma_first_named(front, name);
        assert forall|j: int| 0 <= j < first_named(items, name) implies (#[trigger] items[j]).name != name by {
            if j < front.len() {
                assert(items[j] == front[j]);
            }
        }
    }
}

proof fn lemma_active_none(items: Seq<NavItemView>)
    requires
        active_count(items) == 0,
    ensures
        forall|i: int| 0 <= i < items.len() ==> !(#[trigger] items[i]).active,
    decreases items.len(),
{
    if items.len() > 0 {
        let front = items.drop_last();
        lemma_active_none(front);
        assert forall|i: int| 0 <= i < items.len() implies !(#[trigger] items[i]).active by {
            if i < front.len() {
                assert(items[i] == front[i]);
            }
        }
    }
}

proof fn lemma_active_one(items: Seq<NavItemView>, i: int)
    requires
        0 <= i < items.len(),
        active_count(items) == 0,
    ensures
        active_count(activated(items, i)) == 1,
    decreases items.len(),
{
    let front = items.drop_last();
    if i == items.len() - 1 {
        assert(activated(items, i).drop_last() =~= front);
    } else {
        lemma_active_one(front, i);
        assert(activated(items, i).drop_last() =~= activated(front, i));
    }
}

} // verus!

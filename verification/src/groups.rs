//! The groups of entries that share a leading letter.

use vstd::multiset::Multiset;
use vstd::prelude::*;
use crate::names::{bare_name, law_names_split_after_the_kind, names_after_kind, split_type_name};
use crate::text::{is_letter, same_text, to_upper, upper};
use crate::types::{group_views, item_views, NavGroup, NavGroupView, NavItem, NavItemView};

verus! {

/// The letter that an entry is grouped under: the first letter of its name, the
/// kind of a type left aside, or `#` where the name begins with none.
pub open spec fn letter_of(name: Seq<char>) -> Seq<char> {
    let bare = bare_name(name);
    if bare.len() > 0 && is_letter(bare[0]) {
        seq![upper(bare[0])]
    } else {
        "#"@
    }
}

/// Computes `letter_of`.
pub fn group_key(name: &str) -> (letter: String)
    ensures
        letter@ == letter_of(name@),
{
    let (_kind, bare) = split_type_name(name);
    if !bare.is_empty() {
        let first: char = bare.get_char(0);
        if ('a' <= first && first <= 'z') || ('A' <= first && first <= 'Z') {
            let mut letter: String = String::new();
            letter.push(to_upper(first));
            return letter;
        }
    }
    "#".to_string()
}

/// The test whether an entry is grouped under `letter`.
pub open spec fn under(letter: Seq<char>) -> spec_fn(NavItemView) -> bool {
    |item: NavItemView| letter_of(item.name) == letter
}

/// The letters that entries are grouped under, each once, in the order in which
/// they first come up.
pub open spec fn letters(items: Seq<NavItemView>) -> Seq<Seq<char>>
    decreases items.len(),
{
    if items.len() == 0 {
        Seq::empty()
    } else {
        let before = letters(items.drop_last());
        let letter = letter_of(items.last().name);
        if before.contains(letter) {
            before
        } else {
            before.push(letter)
        }
    }
}

/// Whether one of the entries is active.
pub open spec fn any_active(items: Seq<NavItemView>) -> bool {
    exists|i: int| 0 <= i < items.len() && (#[trigger] items[i]).active
}

/// The fragment of a link that leads to a group.
pub open spec fn anchor_of(letter: Seq<char>) -> Seq<char> {
    if letter == "#"@ {
        "num"@
    } else {
        letter
    }
}

/// The group of the entries that belong under `letter`, in their order.
pub open spec fn group_of(items: Seq<NavItemView>, letter: Seq<char>) -> NavGroupView {
    let members = items.filter(under(letter));
    NavGroupView { letter, anchor: anchor_of(letter), open: any_active(members), items: members }
}

/// The entries by group.
pub open spec fn grouped(items: Seq<NavItemView>) -> Seq<NavGroupView> {
    Seq::new(letters(items).len(), |i: int| group_of(items, letters(items)[i]))
}

/// Groups the entries by their leading letter.
pub fn build_groups(items: &[NavItem]) -> (groups: Vec<NavGroup>)
    ensures
        group_views(groups@) == grouped(item_views(items@)),
{
    let mut groups: Vec<NavGroup> = Vec::new();
    let mut i: usize = 0;
    let ghost views = item_views(items@);
    assert(group_views(groups@) =~= grouped(views.take(0)));
    while i < items.len()
        invariant
            i <= items.len(),
            views == item_views(items@),
            group_views(groups@) == grouped(views.take(i as int)),
        decreases items.len() - i,
    {
        let item = &items[i];
        let letter = group_key(item.name.as_str());
        let ghost seen = views.take(i as int);
        let ghost before = groups@;
        let place: usize = find_group(&groups, letter.as_str());
        proof {
            assert(views.take(i + 1) =~= seen.push(item@));
            lemma_grouped_push(seen, item@);
            assert(group_views(groups@).len() == groups@.len());
            assert(grouped(seen).len() == letters(seen).len());
            assert forall|j: int| 0 <= j < groups@.len() implies (#[trigger] groups@[j]).letter@ == letters(seen)[j] by {
                assert(group_views(groups@)[j] == groups@[j]@);
                assert(grouped(seen)[j] == group_of(seen, letters(seen)[j]));
            }
        }
        if place < groups.len() {
            proof {
                assert(letters(seen)[place as int] == letter@);
                lemma_letters(seen);
            }
            groups[place].items.push(item.clone());
            if item.active {
                groups[place].open = true;
            }
            proof {
                let group = groups@[place as int];
                assert(group_views(before)[place as int] == grouped(seen)[place as int]);
                assert(item_views(group.items@) =~= item_views(before[place as int].items@).push(item@));
                assert(seen.push(item@).filter(under(letter@)) == seen.filter(under(letter@)).push(item@));
                lemma_any_active_push(item_views(before[place as int].items@), item@);
                assert(group@ == group_of(seen.push(item@), letter@));
                assert(group_views(groups@) =~= group_views(before).update(place as int, group@));
                assert(group_views(groups@) =~= grouped(seen.push(item@)));
            }
        } else {
            let anchor: String = if same_text(letter.as_str(), "#") {
                "num".to_string()
            } else {
                letter.clone()
            };
            let mut members: Vec<NavItem> = Vec::new();
            members.push(item.clone());
            groups.push(NavGroup { letter, anchor, open: item.active, items: members });
            proof {
                assert(!letters(seen).contains(letter@)) by {
                    if letters(seen).contains(letter@) {
                        let j = choose|j: int| 0 <= j < letters(seen).len() && letters(seen)[j] == letter@;
                        assert(before[j].letter@ == letter@);
                    }
                }
                lemma_letters(seen);
                let group = groups@[before.len() as int];
                assert(item_views(group.items@) =~= Seq::<NavItemView>::empty().push(item@));
                assert(seen.filter(under(letter@)) =~= Seq::empty());
                assert(seen.push(item@).filter(under(letter@)) == Seq::<NavItemView>::empty().push(item@));
                lemma_any_active_push(Seq::empty(), item@);
                assert(group@.anchor =~= anchor_of(letter@));
                assert(group@ == group_of(seen.push(item@), letter@));
                assert(group_views(groups@) =~= group_views(before).push(group@));
                assert(group_views(groups@) =~= grouped(seen.push(item@)));
            }
        }
        i = i + 1;
    }
    assert(views.take(i as int) =~= views);
    groups
}

/// The place of the group with the given letter, or the number of groups.
fn find_group(groups: &Vec<NavGroup>, letter: &str) -> (place: usize)
    ensures
        place <= groups.len(),
        place < groups.len() ==> groups@[place as int].letter@ == letter@,
        forall|j: int| 0 <= j < place ==> (#[trigger] groups@[j]).letter@ != letter@,
{
    let mut i: usize = 0;
    while i < groups.len()
        invariant
            i <= groups.len(),
            forall|j: int| 0 <= j < i ==> (#[trigger] groups@[j]).letter@ != letter@,
        decreases groups.len() - i,
    {
        if same_text(groups[i].letter.as_str(), letter) {
            return i;
        }
        i = i + 1;
    }
    i
}

proof fn lemma_any_active_push(items: Seq<NavItemView>, item: NavItemView)
    ensures
        any_active(items.push(item)) == (any_active(items) || item.active),
{
    let all = items.push(item);
    if any_active(items) {
        let i = choose|i: int| 0 <= i < items.len() && (#[trigger] items[i]).active;
        assert(all[i].active);
    }
    if item.active {
        assert(all[items.len() as int].active);
    }
}

/// No letter comes twice, and the letters are those of the entries.
proof fn lemma_letters(items: Seq<NavItemView>)
    ensures
        letters(items).no_duplicates(),
        forall|i: int| 0 <= i < items.len() ==> letters(items).contains(letter_of((#[trigger] items[i]).name)),
        forall|letter: Seq<char>| !(#[trigger] letters(items).contains(letter)) ==> items.filter(under(letter)).len() == 0,
    decreases items.len(),
{
    reveal(Seq::filter);
    if items.len() > 0 {
        let front = items.drop_last();
        let last = items.last();
        let letter = letter_of(last.name);
        lemma_letters(front);
        assert forall|i: int| 0 <= i < items.len() implies letters(items).contains(
            letter_of((#[trigger] items[i]).name),
        ) by {
            if i < front.len() {
                assert(items[i] == front[i]);
                let other = letter_of(front[i].name);
                let k = choose|k: int| 0 <= k < letters(front).len() && letters(front)[k] == other;
                assert(letters(items)[k] == other);
            } else if !letters(front).contains(letter) {
                assert(letters(items)[letters(front).len() as int] == letter);
            }
        }
        assert forall|other: Seq<char>| !(#[trigger] letters(items).contains(other)) implies items.filter(
            under(other),
        ).len() == 0 by {
            if letters(front).contains(other) {
                let k = choose|k: int| 0 <= k < letters(front).len() && letters(front)[k] == other;
                assert(letters(items)[k] == other);
            }
            assert(letters(items).contains(letter)) by {
                assert(letters(items).contains(letter_of(items[items.len() - 1].name)));
            }
        }
    }
}

/// How the groups change when an entry is added at the end.
proof fn lemma_grouped_push(items: Seq<NavItemView>, item: NavItemView)
    ensures
        forall|letter: Seq<char>| #[trigger]
            items.push(item).filter(under(letter)) == if letter_of(item.name) == letter {
                items.filter(under(letter)).push(item)
            } else {
                items.filter(under(letter))
            },
        letters(items.push(item)) == if letters(items).contains(letter_of(item.name)) {
            letters(items)
        } else {
            letters(items).push(letter_of(item.name))
        },
{
    assert(items.push(item).drop_last() == items);
    assert forall|letter: Seq<char>| #[trigger]
        items.push(item).filter(under(letter)) == if letter_of(item.name) == letter {
            items.filter(under(letter)).push(item)
        } else {
            items.filter(under(letter))
        } by {
        items.lemma_filter_push(item, under(letter));
    }
}

/// The entries that the groups hold, all together.
pub open spec fn held(groups: Seq<NavGroupView>) -> Multiset<NavItemView>
    decreases groups.len(),
{
    if groups.len() == 0 {
        Multiset::empty()
    } else {
        held(groups.drop_last()).add(groups.last().items.to_multiset())
    }
}

/// The groups divide the entries up: together they hold each entry exactly as
/// often as it was given.
pub proof fn law_groups_hold_each_entry_once(items: Seq<NavItemView>)
    ensures
        held(grouped(items)) == items.to_multiset(),
    decreases items.len(),
{
    broadcast use vstd::seq_lib::group_to_multiset_ensures;

    if items.len() == 0 {
        assert(grouped(items) =~= Seq::empty());
        assert(items.to_multiset() =~= Multiset::empty());
    } else {
        let front = items.drop_last();
        let item = items.last();
        let letter = letter_of(item.name);
        assert(front.push(item) == items);
        law_groups_hold_each_entry_once(front);
        lemma_grouped_push(front, item);
        lemma_letters(front);
        assert(items.to_multiset() == front.to_multiset().insert(item));
        let before = grouped(front);
        if letters(front).contains(letter) {
            let k = choose|k: int| 0 <= k < letters(front).len() && letters(front)[k] == letter;
            assert(grouped(items) =~= before.update(k, group_of(items, letter))) by {
                assert forall|j: int| 0 <= j < before.len() && j != k implies grouped(items)[j] == before[j] by {
                    assert(letters(front)[j] != letter);
                }
            }
            assert(group_of(items, letter).items == before[k].items.push(item));
            lemma_held_update(before, k, group_of(items, letter), item);
        } else {
            assert(front.filter(under(letter)).len() == 0);
            assert(group_of(items, letter).items =~= Seq::<NavItemView>::empty().push(item));
            assert(grouped(items) =~= before.push(group_of(items, letter))) by {
                assert forall|j: int| 0 <= j < before.len() implies grouped(items)[j] == before[j] by {
                    if letters(front)[j] == letter {
                        assert(letters(front).contains(letter));
                    }
                }
            }
            assert(before.push(group_of(items, letter)).drop_last() == before);
            let one = Seq::<NavItemView>::empty().push(item).to_multiset();
            assert(one =~= Multiset::<NavItemView>::empty().insert(item));
            assert(held(grouped(items)) =~= front.to_multiset().insert(item));
        }
    }
}

proof fn lemma_held_update(groups: Seq<NavGroupView>, k: int, group: NavGroupView, item: NavItemView)
    requires
        0 <= k < groups.len(),
        group.items == groups[k].items.push(item),
    ensures
        held(groups.update(k, group)) == held(groups).insert(item),
    decreases groups.len(),
{
    broadcast use vstd::seq_lib::group_to_multiset_ensures;

    let front = groups.drop_last();
    if k == groups.len() - 1 {
        assert(groups.update(k, group).drop_last() == front);
        assert(group.items.to_multiset() == groups[k].items.to_multiset().insert(item));
        assert(held(groups.update(k, group)) =~= held(groups).insert(item));
    } else {
        lemma_held_update(front, k, group, item);
        assert(groups.update(k, group).drop_last() == front.update(k, group));
        assert(held(groups.update(k, group)) =~= held(groups).insert(item));
    }
}

/// No two groups have one letter, no group is empty, a group holds only entries
/// that belong under its letter, and it is open if and only if one of them is
/// active.
pub proof fn law_groups_are_told_apart(items: Seq<NavItemView>)
    ensures
        forall|i: int, j: int|
            0 <= i < grouped(items).len() && 0 <= j < grouped(items).len() && i != j ==> (
            #[trigger] grouped(items)[i]).letter != (#[trigger] grouped(items)[j]).letter,
        forall|i: int|
            0 <= i < grouped(items).len() ==> {
                let group = #[trigger] grouped(items)[i];
                &&& group.items.len() > 0
                &&& group.open == any_active(group.items)
                &&& forall|k: int|
                    0 <= k < group.items.len() ==> letter_of((#[trigger] group.items[k]).name) == group.letter
            },
{
    broadcast use vstd::seq_lib::group_filter_ensures;

    lemma_letters(items);
    lemma_letters_come_up(items);
    assert forall|i: int| 0 <= i < grouped(items).len() implies {
        let group = #[trigger] grouped(items)[i];
        &&& group.items.len() > 0
        &&& group.open == any_active(group.items)
        &&& forall|k: int| 0 <= k < group.items.len() ==> letter_of((#[trigger] group.items[k]).name) == group.letter
    } by {
        let letter = letters(items)[i];
        let group = grouped(items)[i];
        assert(group == group_of(items, letter));
        let j = choose|j: int| 0 <= j < items.len() && letter_of((#[trigger] items[j]).name) == letter;
        assert(under(letter)(items[j]));
        assert(items.filter(under(letter)).contains(items[j]));
        assert forall|k: int| 0 <= k < group.items.len() implies letter_of((#[trigger] group.items[k]).name)
            == group.letter by {
            assert(under(letter)(items.filter(under(letter))[k]));
        }
    }
}

proof fn lemma_letters_come_up(items: Seq<NavItemView>)
    ensures
        forall|i: int|
            0 <= i < letters(items).len() ==> exists|j: int|
                0 <= j < items.len() && letter_of((#[trigger] items[j]).name) == #[trigger] letters(items)[i],
    decreases items.len(),
{
    if items.len() > 0 {
        let front = items.drop_last();
        lemma_letters_come_up(front);
        assert forall|i: int| 0 <= i < letters(items).len() implies exists|j: int|
            0 <= j < items.len() && letter_of((#[trigger] items[j]).name) == #[trigger] letters(items)[i] by {
            if i < letters(front).len() {
                assert(letters(items)[i] == letters(front)[i]);
                let j = choose|j: int|
                    0 <= j < front.len() && letter_of((#[trigger] front[j]).name) == letters(front)[i];
                assert(items[j] == front[j]);
            } else {
                assert(letter_of(items[items.len() - 1].name) == letters(items)[i]);
            }
        }
    }
}

/// An entry is grouped under the first letter of its name in upper case, the kind
/// of a type left aside, or under `#` where that is not an ASCII letter.
pub proof fn law_letter_is_that_of_the_name(name: Seq<char>, rest: Seq<char>)
    requires
        names_after_kind(name, rest),
    ensures
        rest.len() > 0 && 97 <= rest[0] as int <= 122 ==> letter_of(name) == seq![(rest[0] as int - 32) as char],
        rest.len() > 0 && 65 <= rest[0] as int <= 90 ==> letter_of(name) == seq![rest[0]],
        rest.len() == 0 || !(97 <= rest[0] as int <= 122 || 65 <= rest[0] as int <= 90) ==> letter_of(name)
            == seq!['#'],
{
    reveal_strlit("#");
    law_names_split_after_the_kind(name, rest);
    assert("#"@ =~= seq!['#']);
}

/// The test whether the name of an entry belongs under `letter`.
pub open spec fn belongs(letter: Seq<char>) -> spec_fn(NavItemView) -> bool {
    |item: NavItemView| letter_of(item.name) == letter
}

/// Whether `group` is a group of some of the entries: all those that belong under
/// its letter, in their order, and no others; open where one of them is active.
pub open spec fn is_group(group: NavGroupView, items: Seq<NavItemView>) -> bool {
    &&& group.items.len() > 0
    &&& group.items == items.filter(belongs(group.letter))
    &&& group.open <==> exists|k: int| 0 <= k < group.items.len() && (#[trigger] group.items[k]).active
    &&& group.letter == seq!['#'] ==> group.anchor == seq!['n', 'u', 'm']
    &&& group.letter != seq!['#'] ==> group.anchor == group.letter
}

/// Whether an entry under `early` comes before all entries under `late`.
pub open spec fn comes_first(items: Seq<NavItemView>, early: Seq<char>, late: Seq<char>) -> bool {
    exists|a: int|
        0 <= a < items.len() && letter_of((#[trigger] items[a]).name) == early && forall|b: int|
            0 <= b <= a ==> letter_of((#[trigger] items[b]).name) != late
}

/// Whether the groups are those of the entries: together they hold each entry
/// once, each is as it should be, no two have one letter, and they come in the
/// order in which their letters first come up.
pub open spec fn divides(groups: Seq<NavGroupView>, items: Seq<NavItemView>) -> bool {
    &&& held(groups) == items.to_multiset()
    &&& forall|i: int| 0 <= i < groups.len() ==> is_group(#[trigger] groups[i], items)
    &&& forall|i: int, j: int|
        0 <= i < j < groups.len() ==> (#[trigger] groups[i]).letter != (#[trigger] groups[j]).letter && comes_first(
            items,
            groups[i].letter,
            groups[j].letter,
        )
}

/// The groups that are built from entries divide them up.
pub proof fn law_groups_divide_the_entries(items: Seq<NavItemView>)
    ensures
        divides(grouped(items), items),
{
    let groups = grouped(items);
    reveal_strlit("#");
    reveal_strlit("num");
    assert("#"@ =~= seq!['#']);
    assert("num"@ =~= seq!['n', 'u', 'm']);
    law_groups_hold_each_entry_once(items);
    law_groups_are_told_apart(items);
    assert forall|i: int| 0 <= i < groups.len() implies is_group(#[trigger] groups[i], items) by {
        let group = groups[i];
        assert(group == group_of(items, letters(items)[i]));
        assert(under(group.letter) =~= belongs(group.letter));
    }
    assert forall|i: int, j: int| 0 <= i < j < groups.len() implies (#[trigger] groups[i]).letter != (
    #[trigger] groups[j]).letter && comes_first(items, groups[i].letter, groups[j].letter) by {
        lemma_letters_in_order(items, i, j);
        assert(groups[i].letter == letters(items)[i] && groups[j].letter == letters(items)[j]);
    }
}

proof fn lemma_letters_in_order(items: Seq<NavItemView>, i: int, j: int)
    requires
        0 <= i < j < letters(items).len(),
    ensures
        comes_first(items, letters(items)[i], letters(items)[j]),
    decreases items.len(),
{
    let front = items.drop_last();
    let (early, late) = (letters(items)[i], letters(items)[j]);
    if j < letters(front).len() {
        lemma_letters_in_order(front, i, j);
        let a = choose|a: int|
            0 <= a < front.len() && letter_of((#[trigger] front[a]).name) == early && forall|b: int|
                0 <= b <= a ==> letter_of((#[trigger] front[b]).name) != late;
        assert(items[a] == front[a]);
        assert forall|b: int| 0 <= b <= a implies letter_of((#[trigger] items[b]).name) != late by {
            assert(items[b] == front[b]);
        }
    } else {
        lemma_letters_come_up(front);
        lemma_letters(front);
        assert(letters(front)[i] == early);
        let a = choose|a: int| 0 <= a < front.len() && letter_of((#[trigger] front[a]).name) == letters(front)[i];
        assert(items[a] == front[a]);
        assert forall|b: int| 0 <= b <= a implies letter_of((#[trigger] items[b]).name) != late by {
            assert(items[b] == front[b]);
        }
    }
}

} // verus!

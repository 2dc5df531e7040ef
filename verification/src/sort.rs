//! Stable sorting by a piece of text.

use vstd::prelude::*;
use crate::text::{law_text_le_antisymmetric, law_text_le_total, law_text_le_transitive, not_after, text_le};

verus! {

/// Whether the keys never go down from one element to a later one.
pub open spec fn ascending<T>(s: Seq<T>, key: spec_fn(T) -> Seq<char>) -> bool {
    forall|i: int, j: int| 0 <= i <= j < s.len() ==> text_le(key(#[trigger] s[i]), key(#[trigger] s[j]))
}

/// The test whether the key of an element is `k`.
pub open spec fn has_key<T>(key: spec_fn(T) -> Seq<char>, k: Seq<char>) -> spec_fn(T) -> bool {
    |t: T| key(t) == k
}

/// The elements of `s` whose key is `k`, in the order that they have in `s`.
pub open spec fn with_key<T>(s: Seq<T>, key: spec_fn(T) -> Seq<char>, k: Seq<char>) -> Seq<T> {
    s.filter(has_key(key, k))
}

/// Whether `r` is `s` in ascending order, elements with equal keys staying in
/// the order that they have in `s`.
pub open spec fn stable_order_of<T>(r: Seq<T>, s: Seq<T>, key: spec_fn(T) -> Seq<char>) -> bool {
    &&& ascending(r, key)
    &&& forall|k: Seq<char>| #[trigger] with_key(r, key, k) == with_key(s, key, k)
}

/// `s` with `x` put behind the elements whose keys are not above its own.
pub open spec fn place<T>(s: Seq<T>, x: T, key: spec_fn(T) -> Seq<char>) -> Seq<T>
    decreases s.len(),
{
    if s.len() == 0 || text_le(key(s.last()), key(x)) {
        s.push(x)
    } else {
        place(s.drop_last(), x, key).push(s.last())
    }
}

/// `s` in stable ascending order of its keys.
pub open spec fn sorted_by<T>(s: Seq<T>, key: spec_fn(T) -> Seq<char>) -> Seq<T>
    decreases s.len(),
{
    if s.len() == 0 {
        s
    } else {
        place(sorted_by(s.drop_last(), key), s.last(), key)
    }
}

proof fn lemma_with_key_push<T>(s: Seq<T>, x: T, key: spec_fn(T) -> Seq<char>, k: Seq<char>)
    ensures
        with_key(s.push(x), key, k) == if key(x) == k {
            with_key(s, key, k).push(x)
        } else {
            with_key(s, key, k)
        },
{
    s.lemma_filter_push(x, has_key(key, k));
}

proof fn lemma_place<T>(s: Seq<T>, x: T, key: spec_fn(T) -> Seq<char>)
    requires
        ascending(s, key),
    ensures
        ascending(place(s, x, key), key),
    decreases s.len(),
{
    let r = place(s, x, key);
    if s.len() == 0 || text_le(key(s.last()), key(x)) {
        assert forall|i: int, j: int| 0 <= i <= j < r.len() implies text_le(
            key(#[trigger] r[i]),
            key(#[trigger] r[j]),
        ) by {
            law_text_le_total(key(x), key(x));
            if j == s.len() && i < s.len() {
                assert(text_le(key(s[i]), key(s[s.len() - 1])));
                law_text_le_transitive(key(s[i]), key(s.last()), key(x));
            }
        }
    } else {
        let front = s.drop_last();
        let placed = place(front, x, key);
        assert(ascending(front, key));
        lemma_place(front, x, key);
        lemma_place_members(front, x, key);
        law_text_le_total(key(s.last()), key(x));
        assert forall|i: int| 0 <= i < placed.len() implies text_le(key(#[trigger] placed[i]), key(s.last())) by {
            if placed[i] != x {
                let k = choose|k: int| 0 <= k < front.len() && front[k] == placed[i];
                assert(s[k] == placed[i]);
                assert(text_le(key(s[k]), key(s[s.len() - 1])));
            }
        }
        assert forall|i: int, j: int| 0 <= i <= j < r.len() implies text_le(
            key(#[trigger] r[i]),
            key(#[trigger] r[j]),
        ) by {
            law_text_le_total(key(s.last()), key(s.last()));
            if i < placed.len() {
                assert(r[i] == placed[i]);
            }
            if j < placed.len() {
                assert(r[j] == placed[j]);
            }
        }
    }
}

proof fn lemma_place_keeps<T>(s: Seq<T>, x: T, key: spec_fn(T) -> Seq<char>, k: Seq<char>)
    ensures
        with_key(place(s, x, key), key, k) == with_key(s.push(x), key, k),
        place(s, x, key).to_multiset() == s.to_multiset().insert(x),
        place(s, x, key).len() == s.len() + 1,
    decreases s.len(),
{
    broadcast use vstd::seq_lib::group_to_multiset_ensures;

    if s.len() == 0 || text_le(key(s.last()), key(x)) {
    } else {
        let front = s.drop_last();
        let last = s.last();
        lemma_place_keeps(front, x, key, k);
        law_text_le_total(key(x), key(x));
        lemma_with_key_push(place(front, x, key), last, key, k);
        lemma_with_key_push(front, x, key, k);
        lemma_with_key_push(front, last, key, k);
        assert(front.push(last) == s);
        lemma_with_key_push(s, x, key, k);
        assert(s.to_multiset() == front.to_multiset().insert(last));
        assert(place(s, x, key).to_multiset() == s.to_multiset().insert(x));
    }
}

/// Sorting puts the elements in ascending order and keeps the order of those
/// whose keys are equal.
pub proof fn law_sorted_by_is_stable_order<T>(s: Seq<T>, key: spec_fn(T) -> Seq<char>)
    ensures
        stable_order_of(sorted_by(s, key), s, key),
    decreases s.len(),
{
    if s.len() > 0 {
        let front = s.drop_last();
        let x = s.last();
        law_sorted_by_is_stable_order(front, key);
        lemma_place(sorted_by(front, key), x, key);
        assert forall|k: Seq<char>| #[trigger] with_key(sorted_by(s, key), key, k) == with_key(s, key, k) by {
            lemma_place_keeps(sorted_by(front, key), x, key, k);
            lemma_with_key_push(sorted_by(front, key), x, key, k);
            lemma_with_key_push(front, x, key, k);
            assert(with_key(sorted_by(front, key), key, k) == with_key(front, key, k));
            assert(front.push(x) == s);
        }
    }
}

/// Sorting neither adds nor drops an element.
pub proof fn law_sorted_by_is_permutation<T>(s: Seq<T>, key: spec_fn(T) -> Seq<char>)
    ensures
        sorted_by(s, key).to_multiset() == s.to_multiset(),
        sorted_by(s, key).len() == s.len(),
    decreases s.len(),
{
    broadcast use vstd::seq_lib::group_to_multiset_ensures;

    if s.len() > 0 {
        law_sorted_by_is_permutation(s.drop_last(), key);
        lemma_place_keeps(sorted_by(s.drop_last(), key), s.last(), key, key(s.last()));
        assert(s.drop_last().push(s.last()) == s);
    }
}

/// There is one stable ascending order: two sequences that both are the stable
/// order of the same elements are equal.
pub proof fn law_stable_order_is_unique<T>(a: Seq<T>, b: Seq<T>, key: spec_fn(T) -> Seq<char>)
    requires
        ascending(a, key),
        ascending(b, key),
        forall|k: Seq<char>| #[trigger] with_key(a, key, k) == with_key(b, key, k),
    ensures
        a == b,
    decreases a.len(),
{
    broadcast use vstd::seq_lib::group_filter_ensures;

    if a.len() == 0 {
        if b.len() > 0 {
            let k = key(b[0]);
            let p = has_key(key, k);
            assert(with_key(a, key, k) == with_key(b, key, k));
            assert(b.filter(p).contains(b[0]));
        }
    } else if b.len() == 0 {
        let k = key(a[0]);
        let p = has_key(key, k);
        assert(with_key(a, key, k) == with_key(b, key, k));
        assert(a.filter(p).contains(a[0]));
    } else {
        let ka = key(a.last());
        let kb = key(b.last());
        let pa = has_key(key, ka);
        let pb = has_key(key, kb);
        assert(with_key(a, key, ka) == with_key(b, key, ka));
        assert(with_key(a, key, kb) == with_key(b, key, kb));
        assert(a.filter(pa).contains(a[a.len() - 1]));
        assert(b.filter(pb).contains(b[b.len() - 1]));
        lemma_filter_member(b, pa);
        lemma_filter_member(a, pb);
        let i = choose|i: int| 0 <= i < b.len() && pa(b[i]);
        let j = choose|j: int| 0 <= j < a.len() && pb(a[j]);
        assert(text_le(key(b[i]), key(b[b.len() - 1])));
        assert(text_le(key(a[j]), key(a[a.len() - 1])));
        law_text_le_antisymmetric(ka, kb);
        let a0 = a.drop_last();
        let b0 = b.drop_last();
        assert(a0.push(a.last()) == a);
        assert(b0.push(b.last()) == b);
        lemma_with_key_push(a0, a.last(), key, ka);
        lemma_with_key_push(b0, b.last(), key, ka);
        assert(a.last() == with_key(a, key, ka).last());
        assert(b.last() == with_key(b, key, ka).last());
        assert forall|k: Seq<char>| #[trigger] with_key(a0, key, k) == with_key(b0, key, k) by {
            lemma_with_key_push(a0, a.last(), key, k);
            lemma_with_key_push(b0, b.last(), key, k);
            assert(with_key(a, key, k) == with_key(b, key, k));
            if k == ka {
                assert(with_key(a0, key, k) == with_key(a, key, k).drop_last());
                assert(with_key(b0, key, k) == with_key(b, key, k).drop_last());
            }
        }
        law_stable_order_is_unique(a0, b0, key);
    }
}

proof fn lemma_filter_member<T>(s: Seq<T>, p: spec_fn(T) -> bool)
    requires
        s.filter(p).len() > 0,
    ensures
        exists|i: int| 0 <= i < s.len() && p(s[i]),
    decreases s.len(),
{
    reveal(Seq::filter);
    if s.len() > 0 && !p(s.last()) {
        lemma_filter_member(s.drop_last(), p);
        let i = choose|i: int| 0 <= i < s.drop_last().len() && p(s.drop_last()[i]);
        assert(p(s[i]));
    } else if s.len() > 0 {
        assert(p(s[s.len() - 1]));
    }
}

/// Sorting and then mapping gives the same as mapping and then sorting, where
/// the map keeps the keys.
pub proof fn lemma_sorted_by_map<T, U>(
    s: Seq<T>,
    f: spec_fn(T) -> U,
    key: spec_fn(T) -> Seq<char>,
    mapped_key: spec_fn(U) -> Seq<char>,
)
    requires
        forall|t: T| #[trigger] mapped_key(f(t)) == key(t),
    ensures
        sorted_by(s, key).map_values(f) == sorted_by(s.map_values(f), mapped_key),
    decreases s.len(),
{
    if s.len() == 0 {
        assert(sorted_by(s, key).map_values(f) == sorted_by(s.map_values(f), mapped_key));
    } else {
        let front = s.drop_last();
        lemma_sorted_by_map(front, f, key, mapped_key);
        lemma_place_map(sorted_by(front, key), s.last(), f, key, mapped_key);
        assert(s.map_values(f).drop_last() == front.map_values(f));
    }
}

proof fn lemma_place_map<T, U>(
    s: Seq<T>,
    x: T,
    f: spec_fn(T) -> U,
    key: spec_fn(T) -> Seq<char>,
    mapped_key: spec_fn(U) -> Seq<char>,
)
    requires
        forall|t: T| #[trigger] mapped_key(f(t)) == key(t),
    ensures
        place(s, x, key).map_values(f) == place(s.map_values(f), f(x), mapped_key),
    decreases s.len(),
{
    assert(mapped_key(f(x)) == key(x));
    if s.len() > 0 {
        assert(mapped_key(f(s.last())) == key(s.last()));
        assert(s.map_values(f).last() == f(s.last()));
    }
    if s.len() == 0 || text_le(key(s.last()), key(x)) {
        assert(s.push(x).map_values(f) == s.map_values(f).push(f(x)));
    } else {
        let front = s.drop_last();
        lemma_place_map(front, x, f, key, mapped_key);
        assert(s.map_values(f).drop_last() == front.map_values(f));
        assert(place(front, x, key).push(s.last()).map_values(f) == place(front, x, key).map_values(f).push(
            f(s.last()),
        ));
    }
}

proof fn lemma_place_members<T>(s: Seq<T>, x: T, key: spec_fn(T) -> Seq<char>)
    ensures
        place(s, x, key).len() == s.len() + 1,
        forall|i: int|
            0 <= i < place(s, x, key).len() ==> {
                let t = #[trigger] place(s, x, key)[i];
                t == x || s.contains(t)
            },
    decreases s.len(),
{
    let r = place(s, x, key);
    if s.len() == 0 || text_le(key(s.last()), key(x)) {
        assert forall|i: int| 0 <= i < r.len() implies #[trigger] r[i] == x || s.contains(r[i]) by {
            if i < s.len() {
                assert(r[i] == s[i]);
            }
        }
    } else {
        let front = s.drop_last();
        let placed = place(front, x, key);
        lemma_place_members(front, x, key);
        assert forall|i: int| 0 <= i < r.len() implies #[trigger] r[i] == x || s.contains(r[i]) by {
            if i < placed.len() {
                assert(r[i] == placed[i]);
                if placed[i] != x {
                    let k = choose|k: int| 0 <= k < front.len() && front[k] == placed[i];
                    assert(s[k] == placed[i]);
                }
            } else {
                assert(r[i] == s[s.len() - 1]);
            }
        }
    }
}

/// What holds of every element still holds of every element after sorting.
pub proof fn lemma_sorted_by_each<T>(s: Seq<T>, key: spec_fn(T) -> Seq<char>, p: spec_fn(T) -> bool)
    requires
        forall|i: int| 0 <= i < s.len() ==> p(#[trigger] s[i]),
    ensures
        sorted_by(s, key).len() == s.len(),
        forall|i: int| 0 <= i < s.len() ==> p(#[trigger] sorted_by(s, key)[i]),
    decreases s.len(),
{
    if s.len() > 0 {
        let front = s.drop_last();
        lemma_sorted_by_each(front, key, p);
        lemma_place_members(sorted_by(front, key), s.last(), key);
        assert(p(s[s.len() - 1]));
    }
}

/// Whether `r` relates each element to each other element.
pub open spec fn pairwise<T>(s: Seq<T>, r: spec_fn(T, T) -> bool) -> bool {
    forall|i: int, j: int| 0 <= i < s.len() && 0 <= j < s.len() && i != j ==> r(#[trigger] s[i], #[trigger] s[j])
}

proof fn lemma_place_pairwise<T>(s: Seq<T>, x: T, key: spec_fn(T) -> Seq<char>, r: spec_fn(T, T) -> bool)
    requires
        pairwise(s.push(x), r),
    ensures
        pairwise(place(s, x, key), r),
    decreases s.len(),
{
    let all = s.push(x);
    if s.len() == 0 || text_le(key(s.last()), key(x)) {
    } else {
        let front = s.drop_last();
        let last = s.last();
        let placed = place(front, x, key);
        assert forall|i: int, j: int| 0 <= i <= front.len() && 0 <= j <= front.len() && i != j implies r(
            #[trigger] front.push(x)[i],
            #[trigger] front.push(x)[j],
        ) by {
            let i1 = if i == front.len() { s.len() as int } else { i };
            let j1 = if j == front.len() { s.len() as int } else { j };
            assert(front.push(x)[i] == all[i1] && front.push(x)[j] == all[j1]);
        }
        lemma_place_pairwise(front, x, key, r);
        lemma_place_members(front, x, key);
        assert forall|i: int| 0 <= i < placed.len() implies r(#[trigger] placed[i], last) && r(last, placed[i]) by {
            assert(all[s.len() - 1] == last);
            if placed[i] == x {
                assert(all[s.len() as int] == x);
            } else {
                let k = choose|k: int| 0 <= k < front.len() && front[k] == placed[i];
                assert(all[k] == placed[i]);
            }
        }
        let whole = place(s, x, key);
        assert forall|i: int, j: int| 0 <= i < whole.len() && 0 <= j < whole.len() && i != j implies r(
            #[trigger] whole[i],
            #[trigger] whole[j],
        ) by {
            if i < placed.len() {
                assert(whole[i] == placed[i]);
            }
            if j < placed.len() {
                assert(whole[j] == placed[j]);
            }
        }
    }
}

/// What holds between the elements still holds between them after sorting.
pub proof fn lemma_sorted_by_pairwise<T>(s: Seq<T>, key: spec_fn(T) -> Seq<char>, r: spec_fn(T, T) -> bool)
    requires
        pairwise(s, r),
    ensures
        pairwise(sorted_by(s, key), r),
    decreases s.len(),
{
    if s.len() > 0 {
        let front = s.drop_last();
        let x = s.last();
        let sorted = sorted_by(front, key);
        assert(pairwise(front, r));
        lemma_sorted_by_pairwise(front, key, r);
        let near = |t: T| r(t, x) && r(x, t);
        assert forall|i: int| 0 <= i < front.len() implies near(#[trigger] front[i]) by {
            assert(s[i] == front[i] && s[s.len() - 1] == x);
        }
        lemma_sorted_by_each(front, key, near);
        assert forall|i: int, j: int| 0 <= i <= sorted.len() && 0 <= j <= sorted.len() && i != j implies r(
            #[trigger] sorted.push(x)[i],
            #[trigger] sorted.push(x)[j],
        ) by {
            if i < sorted.len() {
                assert(near(sorted[i]));
            }
            if j < sorted.len() {
                assert(near(sorted[j]));
            }
        }
        lemma_place_pairwise(sorted, x, key, r);
    }
}

/// Sorting neither adds nor drops what a function makes of the elements.
pub proof fn lemma_sorted_by_map_multiset<T, U>(s: Seq<T>, f: spec_fn(T) -> U, key: spec_fn(T) -> Seq<char>)
    ensures
        sorted_by(s, key).map_values(f).to_multiset() == s.map_values(f).to_multiset(),
    decreases s.len(),
{
    broadcast use vstd::seq_lib::group_to_multiset_ensures;

    if s.len() > 0 {
        let front = s.drop_last();
        lemma_sorted_by_map_multiset(front, f, key);
        lemma_place_map_multiset(sorted_by(front, key), s.last(), f, key);
        assert(s.map_values(f) =~= front.map_values(f).push(f(s.last())));
    }
}

proof fn lemma_place_map_multiset<T, U>(s: Seq<T>, x: T, f: spec_fn(T) -> U, key: spec_fn(T) -> Seq<char>)
    ensures
        place(s, x, key).map_values(f).to_multiset() == s.map_values(f).to_multiset().insert(f(x)),
    decreases s.len(),
{
    broadcast use vstd::seq_lib::group_to_multiset_ensures;

    if s.len() == 0 || text_le(key(s.last()), key(x)) {
        assert(s.push(x).map_values(f) =~= s.map_values(f).push(f(x)));
    } else {
        let front = s.drop_last();
        lemma_place_map_multiset(front, x, f, key);
        assert(place(s, x, key).map_values(f) =~= place(front, x, key).map_values(f).push(f(s.last())));
        assert(s.map_values(f) =~= front.map_values(f).push(f(s.last())));
    }
}

/// Whether no two elements have the same key.
pub open spec fn keys_differ<T>(s: Seq<T>, key: spec_fn(T) -> Seq<char>) -> bool {
    forall|i: int, j: int| 0 <= i < j < s.len() ==> key(#[trigger] s[i]) != key(#[trigger] s[j])
}

/// Where no two elements have the same key, the order that they come in does not
/// matter.
pub proof fn law_sorted_by_ignores_order<T>(a: Seq<T>, b: Seq<T>, key: spec_fn(T) -> Seq<char>)
    requires
        a.to_multiset() == b.to_multiset(),
        keys_differ(a, key),
    ensures
        sorted_by(a, key) == sorted_by(b, key),
{
    law_sorted_by_is_stable_order(a, key);
    law_sorted_by_is_stable_order(b, key);
    assert forall|k: Seq<char>| #[trigger]
        with_key(sorted_by(a, key), key, k) == with_key(sorted_by(b, key), key, k) by {
        let x = with_key(a, key, k);
        let y = with_key(b, key, k);
        lemma_filter_multiset(a, has_key(key, k));
        lemma_filter_multiset(b, has_key(key, k));
        lemma_with_key_once(a, key, k);
        vstd::seq_lib::to_multiset_len(x);
        vstd::seq_lib::to_multiset_len(y);
        if x.len() == 1 {
            vstd::seq_lib::to_multiset_contains(x, x[0]);
            vstd::seq_lib::to_multiset_contains(y, x[0]);
            assert(x.contains(x[0]));
        }
        assert(x =~= y);
        assert(with_key(sorted_by(a, key), key, k) == x);
        assert(with_key(sorted_by(b, key), key, k) == y);
    }
    law_stable_order_is_unique(sorted_by(a, key), sorted_by(b, key), key);
}

proof fn lemma_filter_multiset<T>(s: Seq<T>, p: spec_fn(T) -> bool)
    ensures
        s.filter(p).to_multiset() == s.to_multiset().filter(p),
    decreases s.len(),
{
    broadcast use vstd::seq_lib::group_to_multiset_ensures;

    reveal(Seq::filter);
    if s.len() > 0 {
        let front = s.drop_last();
        lemma_filter_multiset(front, p);
        assert(front.push(s.last()) =~= s);
        assert(s.filter(p).to_multiset() =~= s.to_multiset().filter(p));
    } else {
        assert(s.filter(p).to_multiset() =~= s.to_multiset().filter(p));
    }
}

proof fn lemma_with_key_once<T>(s: Seq<T>, key: spec_fn(T) -> Seq<char>, k: Seq<char>)
    requires
        keys_differ(s, key),
    ensures
        with_key(s, key, k).len() <= 1,
    decreases s.len(),
{
    if s.len() > 0 {
        let front = s.drop_last();
        let last = s.last();
        lemma_with_key_once(front, key, k);
        lemma_with_key_push(front, last, key, k);
        assert(front.push(last) =~= s);
        if key(last) == k && with_key(front, key, k).len() > 0 {
            let p = has_key(key, k);
            lemma_filter_member(front, p);
            let i = choose|i: int| 0 <= i < front.len() && p(front[i]);
            assert(key(s[i]) != key(s[s.len() - 1]));
        }
    } else {
        reveal(Seq::filter);
    }
}

/// A value that is sorted by a piece of text in it.
pub trait Keyed: Sized {
    /// The piece of text.
    spec fn key(&self) -> Seq<char>;

    /// Reads the piece of text.
    fn key_text(&self) -> (text: &str)
        ensures
            text@ == self.key(),
    ;
}

/// The key of a value, as a function.
pub open spec fn key_of<T: Keyed>() -> spec_fn(T) -> Seq<char> {
    |t: T| t.key()
}

/// Sorts `v` by key. The sort is stable.
pub fn sort_by_key<T: Keyed>(v: &mut Vec<T>)
    ensures
        final(v)@ == sorted_by(old(v)@, key_of::<T>()),
{
    let mut items: Vec<T> = Vec::new();
    let ghost whole = v@;
    items.append(v);
    assert(items@ == whole);
    let mut sorted = merge_sort(items);
    proof {
        law_sorted_by_is_stable_order(whole, key_of::<T>());
        assert forall|k: Seq<char>| #[trigger] with_key(sorted@, key_of::<T>(), k) == with_key(
            sorted_by(whole, key_of::<T>()),
            key_of::<T>(),
            k,
        ) by {
            assert(with_key(sorted_by(whole, key_of::<T>()), key_of::<T>(), k) == with_key(
                whole,
                key_of::<T>(),
                k,
            ));
        }
        law_stable_order_is_unique(sorted@, sorted_by(whole, key_of::<T>()), key_of::<T>());
    }
    v.append(&mut sorted);
}

fn merge_sort<T: Keyed>(items: Vec<T>) -> (sorted: Vec<T>)
    ensures
        stable_order_of(sorted@, items@, key_of::<T>()),
    decreases items.len(),
{
    if items.len() <= 1 {
        proof {
            if items.len() == 1 {
                let k = key_of::<T>()(items@[0]);
                law_text_le_total(k, k);
            }
        }
        return items;
    }
    let ghost whole = items@;
    let mut left = items;
    let middle: usize = left.len() / 2;
    let right = left.split_off(middle);
    assert(whole == left@ + right@);
    let ghost (l, r) = (left@, right@);
    let sorted_left = merge_sort(left);
    let sorted_right = merge_sort(right);
    let merged = merge(sorted_left, sorted_right);
    proof {
        let key = key_of::<T>();
        assert forall|k: Seq<char>| #[trigger] with_key(merged@, key, k) == with_key(whole, key, k) by {
            Seq::filter_distributes_over_add(l, r, has_key(key, k));
            assert(with_key(sorted_left@, key, k) == with_key(l, key, k));
            assert(with_key(sorted_right@, key, k) == with_key(r, key, k));
        }
    }
    merged
}

fn merge<T: Keyed>(left: Vec<T>, right: Vec<T>) -> (merged: Vec<T>)
    requires
        ascending(left@, key_of::<T>()),
        ascending(right@, key_of::<T>()),
    ensures
        ascending(merged@, key_of::<T>()),
        forall|k: Seq<char>| #[trigger]
            with_key(merged@, key_of::<T>(), k) == with_key(left@, key_of::<T>(), k) + with_key(
                right@,
                key_of::<T>(),
                k,
            ),
{
    let ghost key = key_of::<T>();
    let ghost (l, r) = (left@, right@);
    let mut left = left;
    let mut right = right;
    // The largest elements so far, the largest first.
    let mut back: Vec<T> = Vec::new();
    proof {
        assert forall|k: Seq<char>|
            with_key(l, key, k) + with_key(r, key, k) == #[trigger] with_key(left@, key, k) + with_key(
                right@,
                key,
                k,
            ) + with_key(back@.reverse(), key, k) by {
            assert(back@.reverse() == Seq::<T>::empty());
            reveal(Seq::filter);
            assert(with_key(back@.reverse(), key, k) == Seq::<T>::empty());
        }
    }
    while left.len() > 0 || right.len() > 0
        invariant
            key == key_of::<T>(),
            ascending(left@, key),
            ascending(right@, key),
            ascending(back@.reverse(), key),
            forall|i: int, j: int|
                0 <= i < left@.len() && 0 <= j < back@.len() ==> text_le(
                    key(#[trigger] left@[i]),
                    key(#[trigger] back@[j]),
                ),
            forall|i: int, j: int|
                0 <= i < right@.len() && 0 <= j < back@.len() ==> text_le(
                    key(#[trigger] right@[i]),
                    key(#[trigger] back@[j]),
                ),
            forall|k: Seq<char>|
                with_key(l, key, k) + with_key(r, key, k) == #[trigger] with_key(left@, key, k) + with_key(
                    right@,
                    key,
                    k,
                ) + with_key(back@.reverse(), key, k),
        decreases left.len() + right.len(),
    {
        let from_right: bool = if left.len() == 0 {
            true
        } else if right.len() == 0 {
            false
        } else {
            not_after(left[left.len() - 1].key_text(), right[right.len() - 1].key_text())
        };
        let ghost (left0, right0, back0) = (left@, right@, back@);
        if from_right {
            if let Some(x) = right.pop() {
                back.push(x);
                proof {
                    lemma_merge_right(left0, right0, back0, key);
                    assert(right@ == right0.drop_last());
                    assert forall|k: Seq<char>|
                        with_key(l, key, k) + with_key(r, key, k) == #[trigger] with_key(left@, key, k) + with_key(
                            right@,
                            key,
                            k,
                        ) + with_key(back@.reverse(), key, k) by {
                        assert(with_key(left0, key, k) + with_key(right0, key, k) + with_key(
                            back0.reverse(),
                            key,
                            k,
                        ) == with_key(left@, key, k) + with_key(right@, key, k) + with_key(
                            back@.reverse(),
                            key,
                            k,
                        ));
                    }
                }
            }
        } else {
            if let Some(x) = left.pop() {
                back.push(x);
                proof {
                    lemma_merge_left(left0, right0, back0, key);
                    assert(left@ == left0.drop_last());
                    assert forall|k: Seq<char>|
                        with_key(l, key, k) + with_key(r, key, k) == #[trigger] with_key(left@, key, k) + with_key(
                            right@,
                            key,
                            k,
                        ) + with_key(back@.reverse(), key, k) by {
                        assert(with_key(left0, key, k) + with_key(right0, key, k) + with_key(
                            back0.reverse(),
                            key,
                            k,
                        ) == with_key(left@, key, k) + with_key(right@, key, k) + with_key(
                            back@.reverse(),
                            key,
                            k,
                        ));
                    }
                }
            }
        }
    }
    let ghost all = back@.reverse();
    let mut merged: Vec<T> = Vec::new();
    while back.len() > 0
        invariant
            merged@ + back@.reverse() == all,
        decreases back.len(),
    {
        let ghost (merged0, back0) = (merged@, back@);
        if let Some(x) = back.pop() {
            merged.push(x);
            proof {
                assert(back0.reverse() == seq![x] + back@.reverse());
                assert(merged@ + back@.reverse() == merged0 + back0.reverse());
            }
        }
    }
    proof {
        assert(merged@ == all);
        assert forall|k: Seq<char>| #[trigger] with_key(merged@, key, k) == with_key(l, key, k) + with_key(
            r,
            key,
            k,
        ) by {
            reveal(Seq::filter);
            assert(with_key(l, key, k) + with_key(r, key, k) == with_key(left@, key, k) + with_key(
                right@,
                key,
                k,
            ) + with_key(all, key, k));
            assert(with_key(left@, key, k) + with_key(right@, key, k) + with_key(all, key, k) == with_key(
                all,
                key,
                k,
            ));
        }
    }
    merged
}

/// What moving the last element of `right` to the back keeps.
proof fn lemma_merge_right<T>(left: Seq<T>, right: Seq<T>, back: Seq<T>, key: spec_fn(T) -> Seq<char>)
    requires
        right.len() > 0,
        ascending(left, key),
        ascending(right, key),
        ascending(back.reverse(), key),
        left.len() > 0 ==> text_le(key(left.last()), key(right.last())),
        forall|j: int| 0 <= j < back.len() ==> text_le(key(right.last()), key(#[trigger] back[j])),
        forall|i: int, j: int|
            0 <= i < left.len() && 0 <= j < back.len() ==> text_le(
                key(#[trigger] left[i]),
                key(#[trigger] back[j]),
            ),
        forall|i: int, j: int|
            0 <= i < right.len() && 0 <= j < back.len() ==> text_le(
                key(#[trigger] right[i]),
                key(#[trigger] back[j]),
            ),
    ensures
        ({
            let back1 = back.push(right.last());
            let right1 = right.drop_last();
            &&& ascending(right1, key)
            &&& ascending(back1.reverse(), key)
            &&& forall|i: int, j: int|
                0 <= i < left.len() && 0 <= j < back1.len() ==> text_le(
                    key(#[trigger] left[i]),
                    key(#[trigger] back1[j]),
                )
            &&& forall|i: int, j: int|
                0 <= i < right1.len() && 0 <= j < back1.len() ==> text_le(
                    key(#[trigger] right1[i]),
                    key(#[trigger] back1[j]),
                )
            &&& forall|k: Seq<char>|
                with_key(left, key, k) + with_key(right, key, k) + with_key(back.reverse(), key, k)
                    == #[trigger] with_key(left, key, k) + with_key(right1, key, k) + with_key(
                    back1.reverse(),
                    key,
                    k,
                )
        }),
{
    let x = right.last();
    let back1 = back.push(x);
    let right1 = right.drop_last();
    lemma_back_ascending(back, x, key);
    assert forall|i: int, j: int| 0 <= i < left.len() && 0 <= j < back1.len() implies text_le(
        key(#[trigger] left[i]),
        key(#[trigger] back1[j]),
    ) by {
        if j == back.len() {
            assert(text_le(key(left[i]), key(left[left.len() - 1])));
            law_text_le_transitive(key(left[i]), key(left.last()), key(x));
        } else {
            assert(back1[j] == back[j]);
        }
    }
    assert forall|i: int, j: int| 0 <= i < right1.len() && 0 <= j < back1.len() implies text_le(
        key(#[trigger] right1[i]),
        key(#[trigger] back1[j]),
    ) by {
        assert(right1[i] == right[i]);
        if j == back.len() {
            assert(text_le(key(right[i]), key(right[right.len() - 1])));
        } else {
            assert(back1[j] == back[j]);
        }
    }
    assert forall|k: Seq<char>|
        with_key(left, key, k) + with_key(right, key, k) + with_key(back.reverse(), key, k)
            == #[trigger] with_key(left, key, k) + with_key(right1, key, k) + with_key(back1.reverse(), key, k) by {
        assert(right1.push(x) == right);
        lemma_with_key_push(right1, x, key, k);
        assert(back1.reverse() == seq![x] + back.reverse());
        back.reverse().lemma_filter_prepend(x, has_key(key, k));
        assert(with_key(left, key, k) + with_key(right, key, k) + with_key(back.reverse(), key, k) == with_key(
            left,
            key,
            k,
        ) + with_key(right1, key, k) + with_key(back1.reverse(), key, k));
    }
}

/// What moving the last element of `left` to the back keeps.
proof fn lemma_merge_left<T>(left: Seq<T>, right: Seq<T>, back: Seq<T>, key: spec_fn(T) -> Seq<char>)
    requires
        left.len() > 0,
        ascending(left, key),
        ascending(right, key),
        ascending(back.reverse(), key),
        right.len() > 0 ==> !text_le(key(left.last()), key(right.last())),
        forall|i: int, j: int|
            0 <= i < left.len() && 0 <= j < back.len() ==> text_le(
                key(#[trigger] left[i]),
                key(#[trigger] back[j]),
            ),
        forall|i: int, j: int|
            0 <= i < right.len() && 0 <= j < back.len() ==> text_le(
                key(#[trigger] right[i]),
                key(#[trigger] back[j]),
            ),
    ensures
        ({
            let back1 = back.push(left.last());
            let left1 = left.drop_last();
            &&& ascending(left1, key)
            &&& ascending(back1.reverse(), key)
            &&& forall|i: int, j: int|
                0 <= i < left1.len() && 0 <= j < back1.len() ==> text_le(
                    key(#[trigger] left1[i]),
                    key(#[trigger] back1[j]),
                )
            &&& forall|i: int, j: int|
                0 <= i < right.len() && 0 <= j < back1.len() ==> text_le(
                    key(#[trigger] right[i]),
                    key(#[trigger] back1[j]),
                )
            &&& forall|k: Seq<char>|
                with_key(left, key, k) + with_key(right, key, k) + with_key(back.reverse(), key, k)
                    == #[trigger] with_key(left1, key, k) + with_key(right, key, k) + with_key(
                    back1.reverse(),
                    key,
                    k,
                )
        }),
{
    let x = left.last();
    let back1 = back.push(x);
    let left1 = left.drop_last();
    assert(forall|j: int| 0 <= j < back.len() ==> text_le(key(left[left.len() - 1]), key(#[trigger] back[j])));
    lemma_back_ascending(back, x, key);
    assert forall|i: int| 0 <= i < right.len() implies text_le(key(#[trigger] right[i]), key(x)) && key(right[i])
        != key(x) by {
        assert(text_le(key(right[i]), key(right[right.len() - 1])));
        law_text_le_total(key(x), key(right.last()));
        law_text_le_transitive(key(right[i]), key(right.last()), key(x));
    }
    assert forall|i: int, j: int| 0 <= i < left1.len() && 0 <= j < back1.len() implies text_le(
        key(#[trigger] left1[i]),
        key(#[trigger] back1[j]),
    ) by {
        assert(left1[i] == left[i]);
        if j == back.len() {
            assert(text_le(key(left[i]), key(left[left.len() - 1])));
        } else {
            assert(back1[j] == back[j]);
        }
    }
    assert forall|i: int, j: int| 0 <= i < right.len() && 0 <= j < back1.len() implies text_le(
        key(#[trigger] right[i]),
        key(#[trigger] back1[j]),
    ) by {
        if j < back.len() {
            assert(back1[j] == back[j]);
        }
    }
    assert forall|k: Seq<char>|
        with_key(left, key, k) + with_key(right, key, k) + with_key(back.reverse(), key, k)
            == #[trigger] with_key(left1, key, k) + with_key(right, key, k) + with_key(back1.reverse(), key, k) by {
        let p = has_key(key, k);
        assert(left1.push(x) == left);
        lemma_with_key_push(left1, x, key, k);
        assert(back1.reverse() == seq![x] + back.reverse());
        back.reverse().lemma_filter_prepend(x, p);
        if key(x) == k {
            if right.filter(p).len() > 0 {
                lemma_filter_member(right, p);
                let i = choose|i: int| 0 <= i < right.len() && p(right[i]);
                assert(key(right[i]) != key(x));
            }
            assert(with_key(right, key, k) == Seq::<T>::empty());
        }
        assert(with_key(left, key, k) + with_key(right, key, k) + with_key(back.reverse(), key, k) == with_key(
            left1,
            key,
            k,
        ) + with_key(right, key, k) + with_key(back1.reverse(), key, k));
    }
}

proof fn lemma_back_ascending<T>(back: Seq<T>, x: T, key: spec_fn(T) -> Seq<char>)
    requires
        ascending(back.reverse(), key),
        forall|j: int| 0 <= j < back.len() ==> text_le(key(x), key(#[trigger] back[j])),
    ensures
        ascending(back.push(x).reverse(), key),
{
    let r = back.push(x).reverse();
    assert(r == seq![x] + back.reverse());
    law_text_le_total(key(x), key(x));
    assert forall|i: int, j: int| 0 <= i <= j < r.len() implies text_le(
        key(#[trigger] r[i]),
        key(#[trigger] r[j]),
    ) by {
        if i > 0 {
            assert(r[i] == back.reverse()[i - 1] && r[j] == back.reverse()[j - 1]);
        } else if j > 0 {
            assert(r[j] == back[back.len() - j]);
        }
    }
}

} // verus!

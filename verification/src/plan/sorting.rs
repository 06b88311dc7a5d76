//! Stable sorting by integer keys.

use vstd::prelude::*;

verus! {

/// Key compared component by component.
#[derive(Clone, Copy, Debug, PartialEq, Eq, Structural)]
pub struct SortKey {
    pub first: usize,
    pub second: usize,
    pub third: usize,
    pub fourth: usize,
}

/// Lexicographic order.
pub open spec fn key_less(left: SortKey, right: SortKey) -> bool {
    ||| left.first < right.first
    ||| left.first == right.first && left.second < right.second
    ||| left.first == right.first && left.second == right.second && left.third < right.third
    ||| left.first == right.first && left.second == right.second && left.third == right.third
        && left.fourth < right.fourth
}

/// No key comes before an earlier one.
pub open spec fn keys_ascend(keys: Seq<SortKey>) -> bool {
    forall|i: int, j: int|
        0 <= i < j < keys.len() ==> !key_less(#[trigger] keys[j], #[trigger] keys[i])
}

/// No item comes before an earlier one.
pub open spec fn items_ascend<T>(items: Seq<T>, key: spec_fn(T) -> SortKey) -> bool {
    forall|i: int, j: int|
        0 <= i < j < items.len() ==> !key_less(key(#[trigger] items[j]), key(#[trigger] items[i]))
}

impl SortKey {
    pub fn new(first: usize, second: usize, third: usize, fourth: usize) -> (key: SortKey)
        ensures
            key == (SortKey { first, second, third, fourth }),
    {
        SortKey { first, second, third, fourth }
    }

    fn precedes(&self, other: &SortKey) -> (result: bool)
        ensures
            result == key_less(*self, *other),
    {
        if self.first != other.first {
            return self.first < other.first;
        }
        if self.second != other.second {
            return self.second < other.second;
        }
        if self.third != other.third {
            return self.third < other.third;
        }
        self.fourth < other.fourth
    }
}

/// Number of keys that come before the given one.
fn keys_before(keys: &Vec<SortKey>, key: &SortKey) -> (count: usize)
    requires
        keys_ascend(keys@),
    ensures
        count <= keys@.len(),
        forall|i: int| 0 <= i < count ==> key_less(#[trigger] keys@[i], *key),
        forall|i: int| count <= i < keys@.len() ==> !key_less(#[trigger] keys@[i], *key),
{
    let mut low: usize = 0;
    let mut high: usize = keys.len();
    while low < high
        invariant
            keys_ascend(keys@),
            low <= high <= keys@.len(),
            forall|i: int| 0 <= i < low ==> key_less(#[trigger] keys@[i], *key),
            forall|i: int| high <= i < keys@.len() ==> !key_less(#[trigger] keys@[i], *key),
        decreases high - low,
    {
        let middle = low + (high - low) / 2;
        if keys[middle].precedes(key) {
            low = middle + 1;
        } else {
            high = middle;
        }
    }
    low
}

/// An empty sequence counts nothing.
proof fn lemma_nothing_counted<T>()
    ensures
        Seq::<T>::empty().to_multiset() == vstd::multiset::Multiset::<T>::empty(),
{
    broadcast use vstd::multiset::group_multiset_properties;

    Seq::<T>::empty().to_multiset_ensures();
    assert(Seq::<T>::empty().to_multiset().len() == 0);
}

/// Items beside their keys.
pub open spec fn keyed<T>(items: Seq<T>, keys: Seq<SortKey>) -> Seq<(T, SortKey)> {
    Seq::new(items.len(), |i: int| (items[i], keys[i]))
}

/// The items in the order of their keys: some ascending keys belong to them as the given keys
/// belonged to the given items.
pub open spec fn is_sorting<T>(sorted: Seq<T>, items: Seq<T>, keys: Seq<SortKey>) -> bool {
    exists|sorted_keys: Seq<SortKey>|
        sorted_keys.len() == sorted.len() && #[trigger] keys_ascend(sorted_keys) && keyed(
            sorted,
            sorted_keys,
        ).to_multiset() == keyed(items, keys).to_multiset()
}

/// A sorting has the items of the original.
pub proof fn lemma_sorting_members<T>(sorted: Seq<T>, items: Seq<T>, keys: Seq<SortKey>)
    requires
        is_sorting(sorted, items, keys),
        items.len() == keys.len(),
    ensures
        forall|item: T| #[trigger] sorted.contains(item) <==> items.contains(item),
        sorted.len() == items.len(),
{
    broadcast use vstd::seq_lib::group_to_multiset_ensures;

    let sorted_keys = choose|sorted_keys: Seq<SortKey>|
        sorted_keys.len() == sorted.len() && #[trigger] keys_ascend(sorted_keys) && keyed(
            sorted,
            sorted_keys,
        ).to_multiset() == keyed(items, keys).to_multiset();
    let left = keyed(sorted, sorted_keys);
    let right = keyed(items, keys);
    assert(left.len() == right.len()) by {
        assert(left.to_multiset().len() == left.len());
        assert(right.to_multiset().len() == right.len());
    }
    assert forall|item: T| #[trigger] sorted.contains(item) <==> items.contains(item) by {
        if sorted.contains(item) {
            let k = choose|k: int| 0 <= k < sorted.len() && sorted[k] == item;
            assert(left[k] == (item, sorted_keys[k]));
            assert(left.contains(left[k]));
            assert(right.to_multiset().count(left[k]) > 0);
            assert(right.contains(left[k]));
            let i = choose|i: int| 0 <= i < right.len() && right[i] == left[k];
            assert(items[i] == item);
        }
        if items.contains(item) {
            let k = choose|k: int| 0 <= k < items.len() && items[k] == item;
            assert(right[k] == (item, keys[k]));
            assert(right.contains(right[k]));
            assert(left.to_multiset().count(right[k]) > 0);
            assert(left.contains(right[k]));
            let i = choose|i: int| 0 <= i < left.len() && left[i] == right[k];
            assert(sorted[i] == item);
        }
    }
}

/// Sort the items by their keys; items with equal keys keep their order.
pub fn sort_by<T>(items: Vec<T>, keys: Vec<SortKey>) -> (sorted: Vec<T>)
    requires
        items@.len() == keys@.len(),
    ensures
        is_sorting(sorted@, items@, keys@),
        sorted@.to_multiset() == items@.to_multiset(),
{
    let ghost listed = items@;
    let ghost whole = keyed(items@, keys@);
    let mut pending = items;
    let mut pending_keys = keys;
    let mut sorted: Vec<T> = Vec::new();
    let mut sorted_keys: Vec<SortKey> = Vec::new();
    proof {
        assert(keyed(sorted@, sorted_keys@) =~= Seq::<(T, SortKey)>::empty());
        lemma_nothing_counted::<(T, SortKey)>();
        assert(keyed(sorted@, sorted_keys@).to_multiset().add(whole.to_multiset())
            =~= whole.to_multiset());
        lemma_nothing_counted::<T>();
        assert(sorted@ =~= Seq::<T>::empty());
        assert(sorted@.to_multiset().add(listed.to_multiset()) =~= listed.to_multiset());
    }
    while pending.len() > 0
        invariant
            pending@.len() == pending_keys@.len(),
            sorted@.len() == sorted_keys@.len(),
            keys_ascend(sorted_keys@),
            keyed(sorted@, sorted_keys@).to_multiset().add(
                keyed(pending@, pending_keys@).to_multiset(),
            ) == whole.to_multiset(),
            sorted@.to_multiset().add(pending@.to_multiset()) == listed.to_multiset(),
        decreases pending@.len(),
    {
        let ghost earlier = keyed(pending@, pending_keys@);
        let ghost earlier_sorted = keyed(sorted@, sorted_keys@);
        let ghost earlier_keys = sorted_keys@;
        let ghost waiting = pending@;
        let ghost placed = sorted@;
        let item = pending.pop().unwrap();
        let item_key = pending_keys.pop().unwrap();
        let at = keys_before(&sorted_keys, &item_key);
        sorted.insert(at, item);
        sorted_keys.insert(at, item_key);
        proof {
            let entry = (item, item_key);
            assert(waiting =~= pending@.push(item));
            pending@.to_multiset_ensures();
            assert(waiting.to_multiset() =~= pending@.to_multiset().insert(item));
            assert(sorted@ =~= placed.insert(at as int, item));
            vstd::seq_lib::to_multiset_insert(placed, at as int, item);
            assert(sorted@.to_multiset() =~= placed.to_multiset().insert(item));
            assert(sorted@.to_multiset().add(pending@.to_multiset()) =~= placed.to_multiset().add(
                waiting.to_multiset(),
            ));
            let left = keyed(pending@, pending_keys@);
            let right = keyed(sorted@, sorted_keys@);
            assert(earlier =~= left.push(entry));
            left.to_multiset_ensures();
            assert(earlier.to_multiset() =~= left.to_multiset().insert(entry));
            assert(right =~= earlier_sorted.insert(at as int, entry));
            vstd::seq_lib::to_multiset_insert(earlier_sorted, at as int, entry);
            assert(right.to_multiset() =~= earlier_sorted.to_multiset().insert(entry));
            assert(right.to_multiset().add(left.to_multiset())
                =~= earlier_sorted.to_multiset().add(earlier.to_multiset()));
            assert forall|i: int, j: int| 0 <= i < j < sorted_keys@.len() implies !key_less(
                #[trigger] sorted_keys@[j],
                #[trigger] sorted_keys@[i],
            ) by {
                let before = if i < at { i } else { i - 1 };
                let after = if j < at { j } else { j - 1 };
                if i == at {
                    assert(!key_less(earlier_keys[after], item_key));
                } else if j == at {
                    assert(key_less(earlier_keys[before], item_key));
                } else {
                    assert(!key_less(earlier_keys[after], earlier_keys[before]));
                }
            }
        }
    }
    proof {
        assert(keyed(pending@, pending_keys@) =~= Seq::<(T, SortKey)>::empty());
        lemma_nothing_counted::<(T, SortKey)>();
        assert(keyed(sorted@, sorted_keys@).to_multiset() =~= whole.to_multiset());
        lemma_nothing_counted::<T>();
        assert(pending@ =~= Seq::<T>::empty());
        assert(sorted@.to_multiset() =~= listed.to_multiset());
        assert(keys_ascend(sorted_keys@));
    }
    sorted
}

/// Sort the items by a key of their own.
pub fn sorted_by_keys<T>(
    items: Vec<T>,
    keys: Vec<SortKey>,
    Ghost(key): Ghost<spec_fn(T) -> SortKey>,
) -> (sorted: Vec<T>)
    requires
        items@.len() == keys@.len(),
        forall|i: int| 0 <= i < items@.len() ==> key(#[trigger] items@[i]) == keys@[i],
    ensures
        sorted@.len() == items@.len(),
        forall|item: T| #[trigger] sorted@.contains(item) <==> items@.contains(item),
        items_ascend(sorted@, key),
        sorted@.to_multiset() == items@.to_multiset(),
{
    let ghost whole = items@;
    let ghost given = keys@;
    let sorted = sort_by(items, keys);
    proof {
        broadcast use vstd::seq_lib::group_to_multiset_ensures;

        lemma_sorting_members(sorted@, whole, given);
        let sorted_keys = choose|sorted_keys: Seq<SortKey>|
            sorted_keys.len() == sorted@.len() && #[trigger] keys_ascend(sorted_keys) && keyed(
                sorted@,
                sorted_keys,
            ).to_multiset() == keyed(whole, given).to_multiset();
        let left = keyed(sorted@, sorted_keys);
        let right = keyed(whole, given);
        assert forall|k: int| 0 <= k < sorted@.len() implies key(#[trigger] sorted@[k])
            == sorted_keys[k] by {
            assert(left[k] == (sorted@[k], sorted_keys[k]));
            assert(left.contains(left[k]));
            assert(right.to_multiset().count(left[k]) > 0);
            assert(right.contains(left[k]));
            let i = choose|i: int| 0 <= i < right.len() && right[i] == left[k];
            assert(key(whole[i]) == given[i]);
        }
    }
    sorted
}

} // verus!

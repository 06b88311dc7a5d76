//! Occurrence numbers of keyed items, and pairings by them.

use crate::alignment::{is_occurrence_matching, occurrences, same_occurrence, OrderedMatch};
use crate::correspondence::partners::{
    all_claimed, indices_below, new_pairs_from, spread, Partners,
};
use vstd::prelude::*;

verus! {

/// How often a key occurs before a position.
pub open spec fn key_count(keys: Seq<Seq<usize>>, key: Seq<usize>, end: int) -> nat
    decreases end,
{
    if end <= 0 {
        0
    } else {
        key_count(keys, key, end - 1) + if keys[end - 1] == key {
            1nat
        } else {
            0nat
        }
    }
}

/// Two positions hold the same key, the same number of times over.
pub open spec fn same_key_occurrence(
    before: Seq<Seq<usize>>,
    after: Seq<Seq<usize>>,
    x: int,
    y: int,
) -> bool {
    &&& 0 <= x < before.len()
    &&& 0 <= y < after.len()
    &&& before[x] == after[y]
    &&& key_count(before, before[x], x) == key_count(after, after[y], y)
}

/// Exactly the edges between same-numbered occurrences of a key.
pub open spec fn is_key_matching(
    ms: Seq<OrderedMatch>,
    before: Seq<Seq<usize>>,
    after: Seq<Seq<usize>>,
) -> bool {
    &&& forall|i: int|
        0 <= i < ms.len() ==> same_key_occurrence(
            before,
            after,
            (#[trigger] ms[i]).before as int,
            ms[i].after as int,
        )
    &&& forall|x: int, y: int| #[trigger]
        same_key_occurrence(before, after, x, y) ==> ms.contains(
            OrderedMatch { before: x as usize, after: y as usize },
        )
}

/// Numbers that tell keys apart occur as often as the keys.
proof fn lemma_counts_agree(keys: Seq<Seq<usize>>, ids: Seq<usize>, x: int, end: int)
    requires
        ids.len() == keys.len(),
        0 <= x < keys.len(),
        0 <= end <= keys.len(),
        forall|i: int, j: int|
            0 <= i < ids.len() && 0 <= j < ids.len() ==> (#[trigger] ids[i] == #[trigger] ids[j]
                <==> keys[i] == keys[j]),
    ensures
        occurrences(ids, ids[x], end) == key_count(keys, keys[x], end),
    decreases end,
{
    if end > 0 {
        lemma_counts_agree(keys, ids, x, end - 1);
        assert(ids[end - 1] == ids[x] <==> keys[end - 1] == keys[x]);
    }
}

/// A matching of numbers by occurrence is one of their keys.
pub proof fn lemma_key_matching(
    ms: Seq<OrderedMatch>,
    before: Seq<Seq<usize>>,
    after: Seq<Seq<usize>>,
    left: Seq<usize>,
    right: Seq<usize>,
)
    requires
        is_occurrence_matching(ms, left, right),
        left.len() == before.len(),
        right.len() == after.len(),
        forall|i: int, j: int|
            0 <= i < left.len() && 0 <= j < left.len() ==> (#[trigger] left[i]
                == #[trigger] left[j] <==> before[i] == before[j]),
        forall|i: int, j: int|
            0 <= i < right.len() && 0 <= j < right.len() ==> (#[trigger] right[i]
                == #[trigger] right[j] <==> after[i] == after[j]),
        forall|i: int, j: int|
            0 <= i < left.len() && 0 <= j < right.len() ==> (#[trigger] left[i]
                == #[trigger] right[j] <==> before[i] == after[j]),
    ensures
        is_key_matching(ms, before, after),
{
    assert forall|i: int| 0 <= i < ms.len() implies same_key_occurrence(
        before,
        after,
        (#[trigger] ms[i]).before as int,
        ms[i].after as int,
    ) by {
        let x = ms[i].before as int;
        let y = ms[i].after as int;
        assert(same_occurrence(left, right, x, y));
        assert(left[x] == right[y]);
        lemma_counts_agree(before, left, x, x);
        lemma_counts_agree(after, right, y, y);
    }
    assert forall|x: int, y: int| #[trigger]
        same_key_occurrence(before, after, x, y) implies ms.contains(
        OrderedMatch { before: x as usize, after: y as usize },
    ) by {
        lemma_counts_agree(before, left, x, x);
        lemma_counts_agree(after, right, y, y);
        assert(left[x] == right[y]);
        assert(same_occurrence(left, right, x, y));
    }
}

/// How many items before a position have the key.
pub open spec fn rank(model: spec_fn(int) -> Option<Seq<usize>>, key: Seq<usize>, end: int) -> nat
    decreases end,
{
    if end <= 0 {
        0
    } else {
        rank(model, key, end - 1) + if model(end - 1) == Some(key) {
            1nat
        } else {
            0nat
        }
    }
}

/// Two items have the same key, and are as manieth of it.
pub open spec fn same_rank(
    left: spec_fn(int) -> Option<Seq<usize>>,
    right: spec_fn(int) -> Option<Seq<usize>>,
    i: int,
    j: int,
) -> bool {
    &&& left(i) is Some
    &&& left(i) == right(j)
    &&& rank(left, left(i)->0, i) == rank(right, right(j)->0, j)
}

/// The pairs added are exactly those of items with the same key and the same rank.
pub open spec fn is_keyed_pass(
    later: Partners,
    earlier: Partners,
    left: spec_fn(int) -> Option<Seq<usize>>,
    right: spec_fn(int) -> Option<Seq<usize>>,
) -> bool {
    &&& later.grows(earlier)
    &&& forall|i: int|
        0 <= i < later.before@.len() && (#[trigger] later.before@[i]) is Some
            && earlier.before@[i] is None ==> same_rank(left, right, i, later.before@[i]->0 as int)
    &&& forall|i: int, j: int|
        0 <= i < later.before@.len() && 0 <= j < later.after@.len() && #[trigger] same_rank(
            left,
            right,
            i,
            j,
        ) ==> later.before@[i] == Some(j as usize)
}

/// The indices list the first items that have a key, in order, with their keys.
pub open spec fn lists_keyed(
    indices: Seq<usize>,
    keys: Seq<Seq<usize>>,
    model: spec_fn(int) -> Option<Seq<usize>>,
    count: int,
) -> bool {
    &&& indices.len() == keys.len()
    &&& indices_below(indices, count)
    &&& spread(indices)
    &&& forall|k: int|
        0 <= k < indices.len() ==> model((#[trigger] indices[k]) as int) == Some(keys[k])
    &&& forall|i: int| 0 <= i < count && (#[trigger] model(i)) is Some ==> indices.contains(i as usize)
}

proof fn lemma_rank_gap(
    model: spec_fn(int) -> Option<Seq<usize>>,
    key: Seq<usize>,
    from: int,
    to: int,
)
    requires
        0 <= from <= to,
        forall|k: int| from <= k < to ==> (#[trigger] model(k)) is None,
    ensures
        rank(model, key, to) == rank(model, key, from),
    decreases to - from,
{
    if from < to {
        lemma_rank_gap(model, key, from, to - 1);
        assert(model(to - 1) is None);
    }
}

/// The listed items are ranked as their keys are counted.
proof fn lemma_rank_listed(
    indices: Seq<usize>,
    keys: Seq<Seq<usize>>,
    model: spec_fn(int) -> Option<Seq<usize>>,
    count: int,
    key: Seq<usize>,
    x: int,
)
    requires
        lists_keyed(indices, keys, model, count),
        0 <= count <= usize::MAX,
        0 <= x < indices.len(),
    ensures
        rank(model, key, indices[x] as int) == key_count(keys, key, x),
    decreases x,
{
    let from = if x == 0 {
        0
    } else {
        indices[x - 1] + 1
    };
    if x > 0 {
        assert(indices[x - 1] < indices[x]);
    }
    assert forall|k: int| from <= k < indices[x] implies (#[trigger] model(k)) is None by {
        if model(k) is Some {
            assert(indices.contains(k as usize));
            let z = choose|z: int| 0 <= z < indices.len() && indices[z] == k as usize;
            if z > x {
                assert(indices[x] < indices[z]);
            } else if z < x - 1 {
                assert(indices[z] < indices[x - 1]);
            }
        }
    }
    lemma_rank_gap(model, key, from, indices[x] as int);
    if x > 0 {
        lemma_rank_listed(indices, keys, model, count, key, x - 1);
        assert(model(indices[x - 1] as int) == Some(keys[x - 1]));
    }
}

/// Claiming a matching by occurrence is a keyed pass.
pub proof fn lemma_keyed_pass(
    later: Partners,
    earlier: Partners,
    before_indices: Seq<usize>,
    after_indices: Seq<usize>,
    before_keys: Seq<Seq<usize>>,
    after_keys: Seq<Seq<usize>>,
    matches: Seq<OrderedMatch>,
    left: spec_fn(int) -> Option<Seq<usize>>,
    right: spec_fn(int) -> Option<Seq<usize>>,
)
    requires
        later.grows(earlier),
        later.before@.len() <= usize::MAX,
        later.after@.len() <= usize::MAX,
        before_keys.len() <= usize::MAX,
        after_keys.len() <= usize::MAX,
        is_key_matching(matches, before_keys, after_keys),
        new_pairs_from(later, earlier, before_indices, after_indices, matches),
        all_claimed(later, before_indices, after_indices, matches),
        lists_keyed(before_indices, before_keys, left, later.before@.len() as int),
        lists_keyed(after_indices, after_keys, right, later.after@.len() as int),
    ensures
        is_keyed_pass(later, earlier, left, right),
{
    let before_count = later.before@.len() as int;
    let after_count = later.after@.len() as int;
    assert forall|i: int|
        0 <= i < later.before@.len() && (#[trigger] later.before@[i]) is Some
            && earlier.before@[i] is None implies same_rank(
        left,
        right,
        i,
        later.before@[i]->0 as int,
    ) by {
        let k = choose|k: int|
            0 <= k < matches.len() && before_indices[(#[trigger] matches[k]).before as int] == i
                && after_indices[matches[k].after as int] == later.before@[i]->0;
        let x = matches[k].before as int;
        let y = matches[k].after as int;
        assert(same_key_occurrence(before_keys, after_keys, x, y));
        assert(left(before_indices[x] as int) == Some(before_keys[x]));
        assert(right(after_indices[y] as int) == Some(after_keys[y]));
        lemma_rank_listed(before_indices, before_keys, left, before_count, before_keys[x], x);
        lemma_rank_listed(after_indices, after_keys, right, after_count, after_keys[y], y);
    }
    assert forall|i: int, j: int|
        0 <= i < later.before@.len() && 0 <= j < later.after@.len() && #[trigger] same_rank(
            left,
            right,
            i,
            j,
        ) implies later.before@[i] == Some(j as usize) by {
        assert(before_indices.contains(i as usize));
        assert(after_indices.contains(j as usize));
        let x = choose|x: int| 0 <= x < before_indices.len() && before_indices[x] == i as usize;
        let y = choose|y: int| 0 <= y < after_indices.len() && after_indices[y] == j as usize;
        assert(left(before_indices[x] as int) == Some(before_keys[x]));
        assert(right(after_indices[y] as int) == Some(after_keys[y]));
        lemma_rank_listed(before_indices, before_keys, left, before_count, before_keys[x], x);
        lemma_rank_listed(after_indices, after_keys, right, after_count, after_keys[y], y);
        assert(same_key_occurrence(before_keys, after_keys, x, y));
        let edge = OrderedMatch { before: x as usize, after: y as usize };
        assert(matches.contains(edge));
        let k = choose|k: int| 0 <= k < matches.len() && matches[k] == edge;
        assert(later.before@[before_indices[matches[k].before as int] as int] == Some(
            after_indices[matches[k].after as int],
        ));
    }
}

} // verus!

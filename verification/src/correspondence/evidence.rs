//! Similarity evidence and placement of matches.

use crate::alignment::{increasing_subsequence_members, marks_longest_increasing, OrderedMatch};
use crate::correspondence::links::Placement;
use std::collections::HashMap;
use vstd::multiset::Multiset;
use vstd::prelude::*;

verus! {

/// After indices of a matching.
pub open spec fn after_values(matches: Seq<OrderedMatch>) -> Seq<usize> {
    matches.map_values(|edge: OrderedMatch| edge.after)
}

/// Exactly the members of one longest noncrossing selection are stable.
pub open spec fn places_longest(matches: Seq<OrderedMatch>, placements: Seq<Placement>) -> bool {
    marks_longest_increasing(
        placements.map_values(|placement: Placement| placement == Placement::Stable),
        after_values(matches),
    )
}

/// Mark a longest noncrossing sequence as stable and classify the remaining matches as moves.
/// Input matches must be sorted by their before index.
pub fn match_placements(matches: &Vec<OrderedMatch>) -> (placements: Vec<Placement>)
    ensures
        placements@.len() == matches@.len(),
        places_longest(matches@, placements@),
{
    let mut after: Vec<usize> = Vec::new();
    let mut index: usize = 0;
    while index < matches.len()
        invariant
            index <= matches@.len(),
            after@ == after_values(matches@.take(index as int)),
        decreases matches@.len() - index,
    {
        after.push(matches[index].after);
        proof {
            assert(after_values(matches@.take(index + 1)) =~= after_values(
                matches@.take(index as int),
            ).push(matches@[index as int].after));
        }
        index += 1;
    }
    assert(matches@.take(matches@.len() as int) =~= matches@);
    let stable = increasing_subsequence_members(after.as_slice());
    let mut placements: Vec<Placement> = Vec::new();
    let mut position: usize = 0;
    while position < stable.len()
        invariant
            position <= stable@.len(),
            placements@.map_values(|placement: Placement| placement == Placement::Stable)
                == stable@.take(position as int),
        decreases stable@.len() - position,
    {
        let ghost earlier = placements@;
        let placement = if stable[position] {
            Placement::Stable
        } else {
            Placement::Reordered
        };
        placements.push(placement);
        proof {
            let is_stable = |placement: Placement| placement == Placement::Stable;
            assert(placements@.map_values(is_stable) =~= earlier.map_values(is_stable).push(
                is_stable(placement),
            ));
            assert(stable@.take(position + 1) =~= stable@.take(position as int).push(
                stable@[position as int],
            ));
        }
        position += 1;
    }
    proof {
        assert(stable@.take(stable@.len() as int) =~= stable@);
        let is_stable = |placement: Placement| placement == Placement::Stable;
        assert(placements@.map_values(is_stable).len() == placements@.len());
        assert(marks_longest_increasing(placements@.map_values(is_stable), after@));
    }
    placements
}

/// Similarity of one candidate pair.
#[derive(Clone, Copy)]
pub struct Scored {
    pub before: usize,
    pub after: usize,
    pub score: u64,
}

impl Scored {
    /// The endpoint on one side.
    pub open spec fn end(self, of_before: bool) -> usize {
        if of_before {
            self.before
        } else {
            self.after
        }
    }

    fn endpoint(&self, of_before: bool) -> (end: usize)
        ensures
            end == self.end(of_before),
    {
        if of_before {
            self.before
        } else {
            self.after
        }
    }
}

/// Entry `k` scores strictly above every other entry of its endpoint.
pub open spec fn leads(scores: Seq<Scored>, of_before: bool, k: int) -> bool {
    &&& 0 <= k < scores.len()
    &&& scores[k].score > 0
    &&& forall|l: int|
        0 <= l < scores.len() && l != k && (#[trigger] scores[l]).end(of_before) == scores[k].end(
            of_before,
        ) ==> scores[l].score < scores[k].score
}

/// Each endpoint of the entry uniquely prefers the other, above the threshold.
pub open spec fn reciprocal(scores: Seq<Scored>, minimum: u64, k: int) -> bool {
    &&& leads(scores, true, k)
    &&& leads(scores, false, k)
    &&& scores[k].score > minimum
}

/// Some reciprocal entry has these endpoints.
pub open spec fn is_reciprocal(scores: Seq<Scored>, minimum: u64, edge: OrderedMatch) -> bool {
    exists|k: int|
        0 <= k < scores.len() && #[trigger] reciprocal(scores, minimum, k) && scores[k].before
            == edge.before && scores[k].after == edge.after
}

/// Best entry so far of one endpoint.
#[derive(Clone, Copy)]
struct Leader {
    entry: Option<usize>,
    tied: bool,
}

/// The leader describes the entries below `seen`.
spec fn leader_describes(
    scores: Seq<Scored>,
    of_before: bool,
    seen: int,
    end: int,
    leader: Leader,
) -> bool {
    match leader.entry {
        None => forall|l: int|
            0 <= l < seen && (#[trigger] scores[l]).end(of_before) == end ==> scores[l].score == 0,
        Some(k) => {
            &&& k < seen
            &&& scores[k as int].end(of_before) == end
            &&& scores[k as int].score > 0
            &&& forall|l: int|
                0 <= l < seen && (#[trigger] scores[l]).end(of_before) == end ==> scores[l].score
                    <= scores[k as int].score
            &&& leader.tied <==> exists|l: int|
                0 <= l < seen && l != k && (#[trigger] scores[l]).end(of_before) == end
                    && scores[l].score == scores[k as int].score
        },
    }
}

/// Unique best entry of every endpoint on one side.
fn unique_best(scores: &Vec<Scored>, of_before: bool, ends: usize) -> (best: Vec<Option<usize>>)
    requires
        forall|k: int| 0 <= k < scores@.len() ==> (#[trigger] scores@[k]).end(of_before) < ends,
    ensures
        best@.len() == ends,
        forall|end: int, k: int|
            0 <= end < ends && 0 <= k < scores@.len() ==> ((#[trigger] best@[end]) == Some(
                k as usize,
            ) <==> (#[trigger] scores@[k]).end(of_before) == end && leads(scores@, of_before, k)),
        forall|end: int|
            0 <= end < ends ==> ((#[trigger] best@[end]) matches Some(k) ==> k < scores@.len()),
{
    let mut leaders: Vec<Leader> = Vec::new();
    let mut fill: usize = 0;
    while fill < ends
        invariant
            fill <= ends,
            leaders@.len() == fill,
            forall|end: int|
                0 <= end < fill ==> (#[trigger] leaders@[end]).entry is None,
        decreases ends - fill,
    {
        leaders.push(Leader { entry: None, tied: false });
        fill += 1;
    }
    let mut seen: usize = 0;
    while seen < scores.len()
        invariant
            seen <= scores@.len(),
            leaders@.len() == ends,
            forall|k: int| 0 <= k < scores@.len() ==> (#[trigger] scores@[k]).end(of_before) < ends,
            forall|end: int|
                0 <= end < ends ==> leader_describes(
                    scores@,
                    of_before,
                    seen as int,
                    end,
                    #[trigger] leaders@[end],
                ),
        decreases scores@.len() - seen,
    {
        let entry = scores[seen];
        let end = entry.endpoint(of_before);
        let leader = leaders[end];
        let ghost earlier = leaders@;
        if entry.score > 0 {
            match leader.entry {
                None => {
                    leaders.set(end, Leader { entry: Some(seen), tied: false });
                },
                Some(best) => {
                    if entry.score > scores[best].score {
                        leaders.set(end, Leader { entry: Some(seen), tied: false });
                    } else if entry.score == scores[best].score {
                        leaders.set(end, Leader { entry: Some(best), tied: true });
                    }
                },
            }
        }
        proof {
            assert forall|other: int| 0 <= other < ends implies leader_describes(
                scores@,
                of_before,
                seen + 1,
                other,
                #[trigger] leaders@[other],
            ) by {
                assert(leader_describes(scores@, of_before, seen as int, other, earlier[other]));
                if other != end {
                    assert(leaders@[other] == earlier[other]);
                    assert(scores@[seen as int].end(of_before) != other);
                } else {
                    assert(scores@[seen as int].end(of_before) == end);
                }
            }
        }
        seen += 1;
    }
    let mut best: Vec<Option<usize>> = Vec::new();
    let mut position: usize = 0;
    while position < ends
        invariant
            position <= ends,
            leaders@.len() == ends,
            best@.len() == position,
            forall|end: int|
                0 <= end < ends ==> leader_describes(
                    scores@,
                    of_before,
                    scores@.len() as int,
                    end,
                    #[trigger] leaders@[end],
                ),
            forall|end: int|
                0 <= end < position ==> (#[trigger] best@[end]) == (if leaders@[end].tied {
                    None
                } else {
                    leaders@[end].entry
                }),
        decreases ends - position,
    {
        let leader = leaders[position];
        best.push(if leader.tied { None } else { leader.entry });
        position += 1;
    }
    proof {
        assert(scores.len() <= usize::MAX);
        assert forall|end: int, k: int| 0 <= end < ends && 0 <= k < scores@.len() implies ((
        #[trigger] best@[end]) == Some(k as usize) <==> (#[trigger] scores@[k]).end(of_before)
            == end && leads(scores@, of_before, k)) by {
            let leader = leaders@[end];
            assert(leader_describes(scores@, of_before, scores@.len() as int, end, leader));
            if best@[end] == Some(k as usize) {
                assert(leader.entry == Some(k as usize));
                assert(leads(scores@, of_before, k)) by {
                    assert forall|l: int|
                        0 <= l < scores@.len() && l != k && (#[trigger] scores@[l]).end(of_before)
                            == scores@[k].end(of_before) implies scores@[l].score
                        < scores@[k].score by {
                        assert(scores@[l].score <= scores@[k].score);
                    }
                }
            }
            if scores@[k].end(of_before) == end && leads(scores@, of_before, k) {
                assert(leader.entry is Some);
                let top = leader.entry->0;
                if top != k {
                    assert(scores@[top as int].end(of_before) == end);
                    assert(false);
                }
            }
        }
    }
    best
}

/// Accept a pair only when each endpoint uniquely prefers the other and exceeds the threshold.
pub fn reciprocal_unique_matches(
    scores: &Vec<Scored>,
    before_len: usize,
    after_len: usize,
    minimum: u64,
) -> (matches: Vec<OrderedMatch>)
    requires
        forall|k: int|
            0 <= k < scores@.len() ==> (#[trigger] scores@[k]).before < before_len
                && scores@[k].after < after_len,
    ensures
        forall|e: int|
            0 <= e < matches@.len() ==> is_reciprocal(scores@, minimum, #[trigger] matches@[e]),
        forall|k: int|
            0 <= k < scores@.len() && #[trigger] reciprocal(scores@, minimum, k)
                ==> matches@.contains(
                OrderedMatch { before: scores@[k].before, after: scores@[k].after },
            ),
        forall|d: int, e: int|
            0 <= d < e < matches@.len() ==> (#[trigger] matches@[d]).before < (
            #[trigger] matches@[e]).before,
{
    assert forall|k: int| 0 <= k < scores@.len() implies (#[trigger] scores@[k]).end(true)
        < before_len && scores@[k].end(false) < after_len by {}
    let before_best = unique_best(scores, true, before_len);
    let after_best = unique_best(scores, false, after_len);
    let mut matches: Vec<OrderedMatch> = Vec::new();
    let mut before: usize = 0;
    assert(scores.len() <= usize::MAX);
    while before < before_len
        invariant
            before <= before_len,
            scores@.len() <= usize::MAX,
            before_best@.len() == before_len,
            after_best@.len() == after_len,
            forall|k: int|
                0 <= k < scores@.len() ==> (#[trigger] scores@[k]).before < before_len
                    && scores@[k].after < after_len,
            forall|end: int, k: int|
                0 <= end < before_len && 0 <= k < scores@.len() ==> ((
                #[trigger] before_best@[end]) == Some(k as usize) <==> (
                #[trigger] scores@[k]).end(true) == end && leads(scores@, true, k)),
            forall|end: int|
                0 <= end < before_len ==> ((#[trigger] before_best@[end]) matches Some(k) ==> k
                    < scores@.len()),
            forall|end: int, k: int|
                0 <= end < after_len && 0 <= k < scores@.len() ==> ((
                #[trigger] after_best@[end]) == Some(k as usize) <==> (
                #[trigger] scores@[k]).end(false) == end && leads(scores@, false, k)),
            forall|e: int|
                0 <= e < matches@.len() ==> is_reciprocal(
                    scores@,
                    minimum,
                    #[trigger] matches@[e],
                ),
            forall|e: int| 0 <= e < matches@.len() ==> (#[trigger] matches@[e]).before < before,
            forall|k: int|
                0 <= k < scores@.len() && #[trigger] reciprocal(scores@, minimum, k)
                    && scores@[k].before < before ==> matches@.contains(
                    OrderedMatch { before: scores@[k].before, after: scores@[k].after },
                ),
            forall|d: int, e: int|
                0 <= d < e < matches@.len() ==> (#[trigger] matches@[d]).before < (
                #[trigger] matches@[e]).before,
        decreases before_len - before,
    {
        let ghost earlier = matches@;
        if let Some(entry) = before_best[before] {
            let scored = scores[entry];
            let agreed = match after_best[scored.after] {
                Some(other) => other == entry,
                None => false,
            };
            assert(scores@[entry as int].end(true) == before);
            if agreed && scored.score > minimum {
                assert(scores@[entry as int].end(false) == scored.after);
                assert(reciprocal(scores@, minimum, entry as int));
                matches.push(OrderedMatch { before, after: scored.after });
                assert(matches@[earlier.len() as int] == OrderedMatch {
                    before,
                    after: scored.after,
                });
            }
        }
        proof {
            assert forall|k: int|
                0 <= k < scores@.len() && #[trigger] reciprocal(scores@, minimum, k)
                    && scores@[k].before < before + 1 implies matches@.contains(
                OrderedMatch { before: scores@[k].before, after: scores@[k].after },
            ) by {
                let edge = OrderedMatch { before: scores@[k].before, after: scores@[k].after };
                if scores@[k].before < before {
                    assert(earlier.contains(edge));
                    let at = choose|at: int| 0 <= at < earlier.len() && earlier[at] == edge;
                    assert(matches@[at] == edge);
                } else {
                    assert(scores@[k].end(true) == before);
                    assert(before_best@[before as int] == Some(k as usize));
                    assert(scores@[k].end(false) == scores@[k].after);
                    assert(after_best@[scores@[k].after as int] == Some(k as usize));
                    assert(matches@[earlier.len() as int] == edge);
                }
            }
        }
        before += 1;
    }
    matches
}

/// Number of values that two bags share, counted with repetition.
pub open spec fn shared_count(values: Seq<usize>, bag: Multiset<usize>) -> nat
    decreases values.len(),
{
    if values.len() == 0 {
        0
    } else {
        let rest = values.drop_last();
        let left = bag_after(rest, bag);
        shared_count(rest, bag) + if left.count(values.last()) > 0 {
            1nat
        } else {
            0
        }
    }
}

/// What remains of a bag after taking every value it holds.
pub open spec fn bag_after(values: Seq<usize>, bag: Multiset<usize>) -> Multiset<usize>
    decreases values.len(),
{
    if values.len() == 0 {
        bag
    } else {
        let left = bag_after(values.drop_last(), bag);
        if left.count(values.last()) > 0 {
            left.remove(values.last())
        } else {
            left
        }
    }
}

/// The counts of a table are those of a bag.
spec fn counts(table: Map<usize, usize>, bag: Multiset<usize>) -> bool {
    forall|value: usize|
        #![trigger bag.count(value)]
        bag.count(value) == if table.contains_key(value) {
            table[value] as nat
        } else {
            0
        }
}

/// Count shared fingerprints, pairing each at most once.
pub fn shared_fingerprint_count(before: &Vec<usize>, after: &Vec<usize>) -> (shared: u64)
    ensures
        shared == shared_count(before@, after@.to_multiset()),
{
    broadcast use vstd::seq_lib::group_to_multiset_ensures;

    let mut table: HashMap<usize, usize> = HashMap::new();
    let mut index: usize = 0;
    assert(after@.take(0) =~= Seq::<usize>::empty());
    assert(counts(table@, after@.take(0).to_multiset()));
    while index < after.len()
        invariant
            index <= after@.len(),
            counts(table@, after@.take(index as int).to_multiset()),
            forall|value: usize|
                #![trigger table@[value]]
                table@.contains_key(value) ==> table@[value] <= index,
        decreases after@.len() - index,
    {
        let value = after[index];
        let count = match table.get(&value) {
            Some(count) => *count,
            None => 0,
        };
        proof {
            assert(after@.take(index + 1) =~= after@.take(index as int).push(value));
            let bag = after@.take(index as int).to_multiset();
            after@.take(index as int).to_multiset_ensures();
            assert(after@.take(index + 1).to_multiset() =~= bag.insert(value));
            assert(bag.count(value) == count);
        }
        let ghost earlier = table@;
        table.insert(value, count + 1);
        proof {
            let bag = after@.take(index as int).to_multiset();
            assert forall|other: usize|
                #![trigger bag.insert(value).count(other)]
                bag.insert(value).count(other) == if table@.contains_key(other) {
                    table@[other] as nat
                } else {
                    0
                } by {
                assert(bag.count(other) == if earlier.contains_key(other) {
                    earlier[other] as nat
                } else {
                    0
                });
            }
        }
        index += 1;
    }
    assert(after@.take(after@.len() as int) =~= after@);
    let ghost bag = after@.to_multiset();
    let mut shared: u64 = 0;
    let mut position: usize = 0;
    assert(before@.take(0) =~= Seq::<usize>::empty());
    while position < before.len()
        invariant
            position <= before@.len(),
            shared <= position,
            counts(table@, bag_after(before@.take(position as int), bag)),
            shared == shared_count(before@.take(position as int), bag),
        decreases before@.len() - position,
    {
        let value = before[position];
        let count = match table.get(&value) {
            Some(count) => *count,
            None => 0,
        };
        let ghost left = bag_after(before@.take(position as int), bag);
        let ghost earlier = table@;
        proof {
            assert(before@.take(position + 1).drop_last() =~= before@.take(position as int));
            assert(left.count(value) == count);
            assert(before@.take(position + 1).last() == value);
        }
        if count > 0 {
            table.insert(value, count - 1);
            shared += 1;
            proof {
                assert forall|other: usize|
                    #![trigger left.remove(value).count(other)]
                    left.remove(value).count(other) == if table@.contains_key(other) {
                        table@[other] as nat
                    } else {
                        0
                    } by {
                    assert(left.count(other) == if earlier.contains_key(other) {
                        earlier[other] as nat
                    } else {
                        0
                    });
                }
            }
        }
        position += 1;
    }
    assert(before@.take(before@.len() as int) =~= before@);
    shared
}

} // verus!

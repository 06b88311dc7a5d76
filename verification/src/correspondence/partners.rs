//! One-to-one partners between two index ranges.

use crate::alignment::{has_end, is_blocked, monotone, one_to_one, OrderedMatch};
use vstd::prelude::*;

verus! {

/// At most one partner per index on either side.
pub struct Partners {
    pub before: Vec<Option<usize>>,
    pub after: Vec<Option<usize>>,
}

/// The two directions agree.
pub open spec fn mutual(before: Seq<Option<usize>>, after: Seq<Option<usize>>) -> bool {
    &&& forall|i: int|
        0 <= i < before.len() ==> ((#[trigger] before[i]) matches Some(j) ==> j < after.len()
            && after[j as int] == Some(i as usize))
    &&& forall|j: int|
        0 <= j < after.len() ==> ((#[trigger] after[j]) matches Some(i) ==> i < before.len()
            && before[i as int] == Some(j as usize))
}

/// Two indices of one side never share a partner.
pub proof fn law_partners_are_one_to_one(
    before: Seq<Option<usize>>,
    after: Seq<Option<usize>>,
    i: int,
    j: int,
)
    requires
        mutual(before, after),
        before.len() <= usize::MAX,
        0 <= i < before.len(),
        0 <= j < before.len(),
        before[i] is Some,
        before[i] == before[j],
    ensures
        i == j,
{
}

/// Later partners keep every earlier one.
pub open spec fn keeps(later: Seq<Option<usize>>, earlier: Seq<Option<usize>>) -> bool {
    later.len() == earlier.len() && forall|i: int|
        0 <= i < earlier.len() && (#[trigger] earlier[i]) is Some ==> later[i] == earlier[i]
}

impl Partners {
    /// Every index has at most one partner, and partners name each other.
    pub open spec fn wf(self, before_len: int, after_len: int) -> bool {
        &&& self.before@.len() == before_len
        &&& self.after@.len() == after_len
        &&& mutual(self.before@, self.after@)
    }

    /// Every earlier pair is kept.
    pub open spec fn grows(self, earlier: Partners) -> bool {
        keeps(self.before@, earlier.before@) && keeps(self.after@, earlier.after@)
    }

    /// No partners yet.
    pub fn new(before_len: usize, after_len: usize) -> (partners: Partners)
        ensures
            partners.wf(before_len as int, after_len as int),
            forall|i: int| 0 <= i < before_len ==> (#[trigger] partners.before@[i]) is None,
            forall|i: int| 0 <= i < after_len ==> (#[trigger] partners.after@[i]) is None,
    {
        Partners { before: nothing(before_len), after: nothing(after_len) }
    }

    /// Pair two indices where neither has a partner.
    pub fn claim(&mut self, before: usize, after: usize) -> (claimed: bool)
        requires
            mutual(old(self).before@, old(self).after@),
            before < old(self).before@.len(),
            after < old(self).after@.len(),
        ensures
            mutual(final(self).before@, final(self).after@),
            final(self).grows(*old(self)),
            claimed == (old(self).before@[before as int] is None
                && old(self).after@[after as int] is None),
            claimed ==> final(self).before@ == old(self).before@.update(before as int, Some(after))
                && final(self).after@ == old(self).after@.update(after as int, Some(before)),
            !claimed ==> *final(self) == *old(self),
    {
        if self.before[before].is_some() || self.after[after].is_some() {
            return false;
        }
        self.before.set(before, Some(after));
        self.after.set(after, Some(before));
        true
    }

    /// Pair the indices that a matching selects from two lists.
    pub fn claim_all(
        &mut self,
        before_indices: &Vec<usize>,
        after_indices: &Vec<usize>,
        matches: &Vec<OrderedMatch>,
    )
        requires
            mutual(old(self).before@, old(self).after@),
            indices_below(before_indices@, old(self).before@.len() as int),
            indices_below(after_indices@, old(self).after@.len() as int),
            forall|k: int|
                0 <= k < matches@.len() ==> (#[trigger] matches@[k]).before < before_indices@.len()
                    && matches@[k].after < after_indices@.len(),
        ensures
            mutual(final(self).before@, final(self).after@),
            final(self).grows(*old(self)),
            new_pairs_from(
                *final(self),
                *old(self),
                before_indices@,
                after_indices@,
                matches@,
            ),
            spread(before_indices@) && spread(after_indices@) && free_at(
                old(self).before@,
                before_indices@,
            ) && free_at(old(self).after@, after_indices@) && one_to_one(matches@) ==> all_claimed(
                *final(self),
                before_indices@,
                after_indices@,
                matches@,
            ),
    {
        let ghost start = *self;
        let ghost open = spread(before_indices@) && spread(after_indices@) && free_at(
            self.before@,
            before_indices@,
        ) && free_at(self.after@, after_indices@) && one_to_one(matches@);
        let mut position: usize = 0;
        while position < matches.len()
            invariant
                mutual(self.before@, self.after@),
                self.grows(start),
                indices_below(before_indices@, self.before@.len() as int),
                indices_below(after_indices@, self.after@.len() as int),
                position <= matches@.len(),
                forall|k: int|
                    0 <= k < matches@.len() ==> (#[trigger] matches@[k]).before
                        < before_indices@.len() && matches@[k].after < after_indices@.len(),
                new_pairs_from(*self, start, before_indices@, after_indices@, matches@),
                open ==> spread(before_indices@) && spread(after_indices@) && one_to_one(matches@),
                open ==> forall|k: int|
                    0 <= k < position ==> self.before@[before_indices@[(
                    #[trigger] matches@[k]).before as int] as int] == Some(
                        after_indices@[matches@[k].after as int],
                    ),
                open ==> forall|k: int|
                    position <= k < matches@.len() ==> self.before@[before_indices@[(
                    #[trigger] matches@[k]).before as int] as int] is None
                        && self.after@[after_indices@[matches@[k].after as int] as int] is None,
            decreases matches@.len() - position,
        {
            let edge = matches[position];
            let before = before_indices[edge.before];
            let after = after_indices[edge.after];
            let ghost earlier = *self;
            let claimed = self.claim(before, after);
            proof {
                assert(matches@[position as int] == edge);
                if open {
                    assert(claimed);
                    assert forall|k: int| 0 <= k < matches@.len() && k != position implies {
                        &&& before_indices@[(#[trigger] matches@[k]).before as int] != before
                        &&& after_indices@[matches@[k].after as int] != after
                    } by {
                        lemma_spread_apart(
                            before_indices@,
                            matches@[k].before as int,
                            edge.before as int,
                        );
                        lemma_spread_apart(
                            after_indices@,
                            matches@[k].after as int,
                            edge.after as int,
                        );
                    }
                }
                assert forall|i: int|
                    0 <= i < self.before@.len() && (#[trigger] self.before@[i]) is Some
                        && start.before@[i] is None implies exists|k: int|
                    0 <= k < matches@.len() && before_indices@[(
                    #[trigger] matches@[k]).before as int] == i
                        && after_indices@[matches@[k].after as int] == self.before@[i]->0 by {
                    if claimed && i == before {
                        assert(matches@[position as int] == edge);
                    } else {
                        assert(self.before@[i] == earlier.before@[i]);
                    }
                }
            }
            position += 1;
        }
    }
}

/// Some pair crosses the two indices.
pub open spec fn is_crossed(partners: Partners, i: int, j: int) -> bool {
    exists|k: int|
        0 <= k < partners.before@.len() && ((#[trigger] partners.before@[k]) matches Some(l) && (k
            < i && l > j || k > i && l < j))
}

/// A pair that blocks two positions of a matching takes one of the two indices or crosses them.
pub proof fn lemma_blocked_is_crossed(
    partners: Partners,
    before_indices: Seq<usize>,
    after_indices: Seq<usize>,
    matches: Seq<OrderedMatch>,
    x: int,
    y: int,
)
    requires
        mutual(partners.before@, partners.after@),
        all_claimed(partners, before_indices, after_indices, matches),
        indices_below(before_indices, partners.before@.len() as int),
        spread(before_indices),
        spread(after_indices),
        forall|k: int|
            0 <= k < matches.len() ==> (#[trigger] matches[k]).before < before_indices.len()
                && matches[k].after < after_indices.len(),
        is_blocked(matches, x, y),
        0 <= x < before_indices.len(),
        0 <= y < after_indices.len(),
    ensures
        partners.before@[before_indices[x] as int] is Some
            || partners.after@[after_indices[y] as int] is Some || is_crossed(
            partners,
            before_indices[x] as int,
            after_indices[y] as int,
        ),
{
    let k = choose|k: int|
        0 <= k < matches.len() && !((#[trigger] matches[k]).before < x && matches[k].after < y) && !(
        matches[k].before > x && matches[k].after > y);
    let edge = matches[k];
    let b = before_indices[edge.before as int];
    let a = after_indices[edge.after as int];
    assert(partners.before@[b as int] == Some(a));
    if edge.before != x && edge.after != y {
        if edge.before < x {
            assert(b < before_indices[x] && a > after_indices[y]);
        } else {
            assert(b > before_indices[x] && a < after_indices[y]);
        }
    }
}

/// An edge that ends at one of two positions gives one of the two indices a partner.
pub proof fn lemma_end_is_paired(
    partners: Partners,
    before_indices: Seq<usize>,
    after_indices: Seq<usize>,
    matches: Seq<OrderedMatch>,
    x: int,
    y: int,
)
    requires
        mutual(partners.before@, partners.after@),
        all_claimed(partners, before_indices, after_indices, matches),
        indices_below(before_indices, partners.before@.len() as int),
        forall|k: int|
            0 <= k < matches.len() ==> (#[trigger] matches[k]).before < before_indices.len()
                && matches[k].after < after_indices.len(),
        has_end(matches, x, y),
        0 <= x < before_indices.len(),
        0 <= y < after_indices.len(),
    ensures
        partners.before@[before_indices[x] as int] is Some
            || partners.after@[after_indices[y] as int] is Some,
{
    let k = choose|k: int|
        0 <= k < matches.len() && ((#[trigger] matches[k]).before == x || matches[k].after == y);
    let b = before_indices[matches[k].before as int];
    assert(partners.before@[b as int] == Some(after_indices[matches[k].after as int]));
}

/// Noncrossing edges share no end.
pub proof fn lemma_monotone_one_to_one(matches: Seq<OrderedMatch>)
    requires
        monotone(matches),
    ensures
        one_to_one(matches),
{
    assert forall|i: int, j: int|
        0 <= i < matches.len() && 0 <= j < matches.len() && i != j implies (
    #[trigger] matches[i]).before != (#[trigger] matches[j]).before && matches[i].after
        != matches[j].after by {
        if i < j {
            assert(matches[i].before < matches[j].before);
        } else {
            assert(matches[j].before < matches[i].before);
        }
    }
}

/// Pairs are only added, so a crossing stays.
pub proof fn lemma_crossed_grows(later: Partners, earlier: Partners, i: int, j: int)
    requires
        later.grows(earlier),
        is_crossed(earlier, i, j),
    ensures
        is_crossed(later, i, j),
{
    let k = choose|k: int|
        0 <= k < earlier.before@.len() && ((#[trigger] earlier.before@[k]) matches Some(l) && (k < i
            && l > j || k > i && l < j));
    assert(later.before@[k] == earlier.before@[k]);
}

/// One of the two indices has a partner.
pub open spec fn is_taken(partners: Partners, i: int, j: int) -> bool {
    partners.before@[i] is Some || partners.after@[j] is Some
}

/// One of the two indices has a partner, or a pair crosses them.
pub open spec fn is_settled(partners: Partners, i: int, j: int) -> bool {
    is_taken(partners, i, j) || is_crossed(partners, i, j)
}

/// What is settled stays settled.
pub proof fn lemma_settled_grows(later: Partners, earlier: Partners, i: int, j: int)
    requires
        later.grows(earlier),
        0 <= i < earlier.before@.len(),
        0 <= j < earlier.after@.len(),
        is_settled(earlier, i, j),
    ensures
        is_settled(later, i, j),
        is_taken(earlier, i, j) ==> is_taken(later, i, j),
{
    if !is_taken(earlier, i, j) {
        lemma_crossed_grows(later, earlier, i, j);
    }
}

/// Every entry is below the bound.
pub open spec fn indices_below(indices: Seq<usize>, bound: int) -> bool {
    forall|k: int| 0 <= k < indices.len() ==> (#[trigger] indices[k]) < bound
}

/// The indices strictly ascend.
pub open spec fn spread(indices: Seq<usize>) -> bool {
    forall|k: int, l: int| 0 <= k < l < indices.len() ==> #[trigger] indices[k] < #[trigger] indices[l]
}

/// Ascending indices are distinct.
pub proof fn lemma_spread_apart(indices: Seq<usize>, k: int, l: int)
    requires
        spread(indices),
        0 <= k < indices.len(),
        0 <= l < indices.len(),
        k != l,
    ensures
        indices[k] != indices[l],
{
    if k < l {
        assert(indices[k] < indices[l]);
    } else {
        assert(indices[l] < indices[k]);
    }
}

/// No listed index has a partner.
pub open spec fn free_at(list: Seq<Option<usize>>, indices: Seq<usize>) -> bool {
    forall|k: int| 0 <= k < indices.len() ==> list[(#[trigger] indices[k]) as int] is None
}

/// Every edge of the matching became a pair.
pub open spec fn all_claimed(
    partners: Partners,
    before_indices: Seq<usize>,
    after_indices: Seq<usize>,
    matches: Seq<OrderedMatch>,
) -> bool {
    forall|k: int|
        0 <= k < matches.len() ==> partners.before@[before_indices[(
        #[trigger] matches[k]).before as int] as int] == Some(
            after_indices[matches[k].after as int],
        )
}

/// Every new pair is one that the matching selected.
pub open spec fn new_pairs_from(
    later: Partners,
    earlier: Partners,
    before_indices: Seq<usize>,
    after_indices: Seq<usize>,
    matches: Seq<OrderedMatch>,
) -> bool {
    forall|i: int|
        0 <= i < later.before@.len() && (#[trigger] later.before@[i]) is Some
            && earlier.before@[i] is None ==> exists|k: int|
            0 <= k < matches.len() && before_indices[(#[trigger] matches[k]).before as int] == i
                && after_indices[matches[k].after as int] == later.before@[i]->0
}

/// A list of empty entries.
pub fn nothing(len: usize) -> (list: Vec<Option<usize>>)
    ensures
        list@.len() == len,
        forall|i: int| 0 <= i < len ==> (#[trigger] list@[i]) is None,
{
    let mut list: Vec<Option<usize>> = Vec::new();
    let mut index: usize = 0;
    while index < len
        invariant
            index <= len,
            list@.len() == index,
            forall|i: int| 0 <= i < index ==> (#[trigger] list@[i]) is None,
        decreases len - index,
    {
        list.push(None);
        index += 1;
    }
    list
}

/// A list of one truth value.
pub fn repeated(value: bool, len: usize) -> (list: Vec<bool>)
    ensures
        list@.len() == len,
        forall|i: int| 0 <= i < len ==> (#[trigger] list@[i]) == value,
{
    let mut list: Vec<bool> = Vec::new();
    let mut index: usize = 0;
    while index < len
        invariant
            index <= len,
            list@.len() == index,
            forall|i: int| 0 <= i < index ==> (#[trigger] list@[i]) == value,
        decreases len - index,
    {
        list.push(value);
        index += 1;
    }
    list
}

} // verus!

//! Sequence alignment over interned values: equal integers stand for equal values.

use std::collections::HashMap;
use vstd::prelude::*;

verus! {

/// Largest score table that a gap alignment may allocate.
pub const MAX_LOCAL_ALIGNMENT_CELLS: usize = 16_384;

/// Occurrence indices; the matching algorithm determines whether these edges may cross.
#[derive(Clone, Copy, Debug, PartialEq, Eq, Structural)]
pub struct OrderedMatch {
    pub before: usize,
    pub after: usize,
}

/// Every edge joins equal values of the two sequences.
pub open spec fn pairs_equal(ms: Seq<OrderedMatch>, before: Seq<usize>, after: Seq<usize>) -> bool {
    forall|i: int|
        0 <= i < ms.len() ==> (#[trigger] ms[i]).before < before.len() && ms[i].after < after.len()
            && before[ms[i].before as int] == after[ms[i].after as int]
}

/// Edges advance strictly in both sequences, so none cross and none share an endpoint.
pub open spec fn monotone(ms: Seq<OrderedMatch>) -> bool {
    forall|i: int, j: int|
        0 <= i < j < ms.len() ==> (#[trigger] ms[i]).before < (#[trigger] ms[j]).before
            && ms[i].after < ms[j].after
}

/// An order-preserving matching of equal values.
pub open spec fn is_alignment(
    ms: Seq<OrderedMatch>,
    before: Seq<usize>,
    after: Seq<usize>,
) -> bool {
    pairs_equal(ms, before, after) && monotone(ms)
}

/// No endpoint occurs twice on either side.
pub open spec fn one_to_one(ms: Seq<OrderedMatch>) -> bool {
    forall|i: int, j: int|
        0 <= i < ms.len() && 0 <= j < ms.len() && i != j ==> (#[trigger] ms[i]).before != (
        #[trigger] ms[j]).before && ms[i].after != ms[j].after
}

/// The edge `(k, k)` for every index.
pub open spec fn is_identity(ms: Seq<OrderedMatch>, len: nat) -> bool {
    ms.len() == len && forall|i: int|
        0 <= i < len ==> (#[trigger] ms[i]).before == i && ms[i].after == i
}

/// Positional distance of one edge.
pub open spec fn edge_drift(edge: OrderedMatch) -> nat {
    if edge.before >= edge.after {
        (edge.before - edge.after) as nat
    } else {
        (edge.after - edge.before) as nat
    }
}

/// Total positional distance of a matching.
pub open spec fn total_drift(ms: Seq<OrderedMatch>) -> nat
    decreases ms.len(),
{
    if ms.len() == 0 {
        0
    } else {
        total_drift(ms.drop_last()) + edge_drift(ms.last())
    }
}

/// Strictly increasing indices that select strictly increasing values.
pub open spec fn is_increasing_selection(values: Seq<usize>, picked: Seq<int>) -> bool {
    &&& forall|i: int| 0 <= i < picked.len() ==> 0 <= #[trigger] picked[i] < values.len()
    &&& forall|i: int, j: int|
        0 <= i < j < picked.len() ==> #[trigger] picked[i] < #[trigger] picked[j]
            && values[picked[i]] < values[picked[j]]
}

/// The marks are exactly the picked indices.
pub open spec fn marks_exactly(members: Seq<bool>, picked: Seq<int>) -> bool {
    forall|i: int| 0 <= i < members.len() ==> (#[trigger] members[i] <==> picked.contains(i))
}

/// The longest increasing selection that ends at the index has this length.
pub open spec fn has_rank(values: Seq<usize>, index: int, rank: int) -> bool {
    &&& exists|picked: Seq<int>|
        picked.len() == rank && rank > 0 && picked.last() == index && #[trigger]
        is_increasing_selection(values, picked)
    &&& forall|picked: Seq<int>| #[trigger]
        is_increasing_selection(values, picked) && picked.len() > 0 && picked.last() == index
            ==> picked.len() <= rank
}

/// No later index of the same rank comes before the end.
pub open spec fn is_latest(values: Seq<usize>, index: int, rank: int, end: int) -> bool {
    forall|later: int| index < later < end ==> !#[trigger] has_rank(values, later, rank)
}

/// Of the indices that could continue the selection backwards, each pick is the latest.
pub open spec fn picks_latest(values: Seq<usize>, picked: Seq<int>) -> bool {
    forall|k: int|
        0 <= k < picked.len() ==> is_latest(
            values,
            #[trigger] picked[k],
            k + 1,
            if k + 1 < picked.len() {
                picked[k + 1]
            } else {
                values.len() as int
            },
        )
}

/// The marks select a strictly increasing subsequence, none is longer, and of equal choices
/// the latest are taken.
pub open spec fn marks_longest_increasing(members: Seq<bool>, values: Seq<usize>) -> bool {
    members.len() == values.len() && exists|picked: Seq<int>|
        #![trigger marks_exactly(members, picked)]
        marks_exactly(members, picked) && is_increasing_selection(values, picked) && picks_latest(
            values,
            picked,
        ) && forall|
            other: Seq<int>,
        |
            is_increasing_selection(values, other) ==> other.len() <= picked.len()
}

/// A chain of `previous` links that ends at `index`, read from its first element.
spec fn chain(previous: Seq<Option<usize>>, index: int) -> Seq<int>
    decreases index,
{
    if 0 <= index < previous.len() {
        match previous[index] {
            Some(parent) => if parent < index {
                chain(previous, parent as int).push(index)
            } else {
                seq![index]
            },
            None => seq![index],
        }
    } else {
        seq![index]
    }
}

proof fn lemma_chain_stable(left: Seq<Option<usize>>, right: Seq<Option<usize>>, index: int)
    requires
        0 <= index < left.len(),
        left.len() == right.len(),
        forall|i: int| 0 <= i <= index ==> left[i] == right[i],
    ensures
        chain(left, index) == chain(right, index),
    decreases index,
{
    if let Some(parent) = left[index] {
        if parent < index {
            lemma_chain_stable(left, right, parent as int);
        }
    }
}

/// A chain of the right length whose members ascend and that ends at `index`.
spec fn good_chain(
    values: Seq<usize>,
    previous: Seq<Option<usize>>,
    index: int,
    length: int,
) -> bool {
    &&& chain(previous, index).len() == length
    &&& chain(previous, index).last() == index
    &&& is_increasing_selection(values, chain(previous, index))
    &&& links_latest(values, chain(previous, index))
}

/// Every link but the last is the latest of its rank before the next.
spec fn links_latest(values: Seq<usize>, picked: Seq<int>) -> bool {
    forall|k: int|
        0 <= k < picked.len() - 1 ==> is_latest(values, #[trigger] picked[k], k + 1, picked[k + 1])
}

spec fn patience_state(
    values: Seq<usize>,
    previous: Seq<Option<usize>>,
    tails: Seq<usize>,
    seen: int,
) -> bool {
    &&& previous.len() == values.len()
    &&& 0 <= seen <= values.len()
    &&& tails.len() <= seen
    &&& seen > 0 ==> tails.len() > 0
    &&& forall|k: int| 0 <= k < tails.len() ==> (#[trigger] tails[k]) < seen
    &&& forall|k: int, l: int|
        0 <= k < l < tails.len() ==> values[(#[trigger] tails[k]) as int] < values[(
        #[trigger] tails[l]) as int]
    &&& forall|k: int|
        0 <= k < tails.len() ==> good_chain(
            values,
            previous,
            (#[trigger] tails[k]) as int,
            k + 1,
        )
    &&& forall|picked: Seq<int>|
        #![trigger is_increasing_selection(values, picked)]
        is_increasing_selection(values, picked) && picked.len() > 0 && picked.last() < seen
            ==> picked.len() <= tails.len() && values[tails[picked.len() - 1] as int]
            <= values[picked.last()]
    &&& forall|k: int|
        0 <= k < tails.len() ==> is_latest(values, (#[trigger] tails[k]) as int, k + 1, seen)
}

proof fn lemma_patience_step(
    values: Seq<usize>,
    previous: Seq<Option<usize>>,
    tails: Seq<usize>,
    index: int,
    slot: int,
    next_previous: Seq<Option<usize>>,
    next_tails: Seq<usize>,
)
    requires
        patience_state(values, previous, tails, index),
        0 <= index < values.len(),
        values.len() <= usize::MAX,
        0 <= slot <= tails.len(),
        forall|k: int| 0 <= k < slot ==> values[(#[trigger] tails[k]) as int] < values[index],
        forall|k: int|
            slot <= k < tails.len() ==> values[(#[trigger] tails[k]) as int] >= values[index],
        next_previous == previous.update(
            index,
            if slot > 0 {
                Some(tails[slot - 1])
            } else {
                None
            },
        ),
        previous[index] is None,
        next_tails == (if slot == tails.len() {
            tails.push(index as usize)
        } else {
            tails.update(slot, index as usize)
        }),
    ensures
        patience_state(values, next_previous, next_tails, index + 1),
{
    assert forall|k: int, l: int| 0 <= k < l < next_tails.len() implies values[(
    #[trigger] next_tails[k]) as int] < values[(#[trigger] next_tails[l]) as int] by {
        if k == slot {
            assert(values[tails[k] as int] < values[tails[l] as int]);
        } else if l != slot {
            assert(values[tails[k] as int] < values[tails[l] as int]);
        } else {
            assert(values[tails[k] as int] < values[index]);
        }
    }
    assert forall|k: int| 0 <= k < next_tails.len() implies good_chain(
        values,
        next_previous,
        (#[trigger] next_tails[k]) as int,
        k + 1,
    ) by {
        if k != slot {
            assert(next_tails[k] == tails[k]);
            lemma_chain_stable(previous, next_previous, tails[k] as int);
            assert(good_chain(values, previous, tails[k] as int, k + 1));
        } else if slot > 0 {
            let parent = tails[slot - 1] as int;
            lemma_chain_stable(previous, next_previous, parent);
            assert(good_chain(values, previous, parent, slot));
            let base = chain(previous, parent);
            assert(chain(next_previous, index) == base.push(index));
            assert forall|i: int, j: int|
                0 <= i < j < base.push(index).len() implies #[trigger] base.push(index)[i]
                < #[trigger] base.push(index)[j] && values[base.push(index)[i]]
                < values[base.push(index)[j]] by {
                if j == base.len() {
                    assert(base.last() == parent);
                    assert(base[i] <= base.last()) by {
                        if i < base.len() - 1 {
                            assert(base[i] < base[base.len() - 1]);
                        }
                    }
                    assert(values[base[i]] <= values[parent]) by {
                        if i < base.len() - 1 {
                            assert(values[base[i]] < values[base[base.len() - 1]]);
                        }
                    }
                }
            }
            assert(links_latest(values, base.push(index))) by {
                assert forall|m: int| 0 <= m < base.push(index).len() - 1 implies is_latest(
                    values,
                    #[trigger] base.push(index)[m],
                    m + 1,
                    base.push(index)[m + 1],
                ) by {
                    if m < base.len() - 1 {
                        assert(is_latest(values, base[m], m + 1, base[m + 1]));
                    } else {
                        assert(is_latest(values, tails[slot - 1] as int, slot, index));
                    }
                }
            }
        } else {
            assert(chain(next_previous, index) == seq![index]);
        }
    }
    assert forall|picked: Seq<int>|
        #![trigger is_increasing_selection(values, picked)]
        is_increasing_selection(values, picked) && picked.len() > 0 && picked.last() < index
            + 1 implies picked.len() <= next_tails.len() && values[next_tails[picked.len()
        - 1] as int] <= values[picked.last()] by {
        let n = picked.len() as int;
        if picked.last() < index {
            assert(is_increasing_selection(values, picked));
            assert(values[tails[n - 1] as int] <= values[picked.last()]);
        } else {
            assert(picked.last() == index);
            let shorter = picked.drop_last();
            if shorter.len() > 0 {
                assert(is_increasing_selection(values, shorter)) by {
                    assert forall|i: int, j: int| 0 <= i < j < shorter.len() implies #[trigger] shorter[i]
                        < #[trigger] shorter[j] && values[shorter[i]] < values[shorter[j]] by {
                        assert(picked[i] < picked[j]);
                    }
                    assert forall|i: int| 0 <= i < shorter.len() implies 0 <= #[trigger] shorter[i]
                        < values.len() by {
                        assert(picked[i] == shorter[i]);
                    }
                }
                assert(picked[n - 2] < picked[n - 1]);
                assert(shorter.last() == picked[n - 2]);
                assert(values[tails[n - 2] as int] <= values[shorter.last()]);
                assert(values[tails[n - 2] as int] < values[index]);
                assert(n - 2 < slot);
            }
            assert(n - 1 <= slot);
            if n - 1 < slot {
                assert(next_tails[n - 1] == tails[n - 1]);
                assert(values[tails[n - 1] as int] < values[index]);
            }
        }
    }
    assert forall|k: int| 0 <= k < next_tails.len() implies is_latest(
        values,
        (#[trigger] next_tails[k]) as int,
        k + 1,
        index + 1,
    ) by {
        assert forall|later: int| next_tails[k] < later < index + 1 implies !#[trigger] has_rank(
            values,
            later,
            k + 1,
        ) by {
            if later < index {
                assert(k != slot);
                assert(is_latest(values, tails[k] as int, k + 1, index));
            } else if has_rank(values, index, k + 1) {
                assert(k != slot);
                let whole = chain(next_previous, index);
                assert(good_chain(values, next_previous, next_tails[slot] as int, slot + 1));
                assert(is_increasing_selection(values, whole));
                assert(slot + 1 <= k + 1);
                let picked = choose|picked: Seq<int>|
                    picked.len() == k + 1 && picked.last() == index && #[trigger]
                    is_increasing_selection(values, picked);
                let shorter = picked.drop_last();
                assert(shorter.len() == k);
                assert(is_increasing_selection(values, shorter)) by {
                    assert forall|i: int, j: int| 0 <= i < j < shorter.len() implies #[trigger] shorter[i]
                        < #[trigger] shorter[j] && values[shorter[i]] < values[shorter[j]] by {
                        assert(picked[i] < picked[j]);
                    }
                    assert forall|i: int| 0 <= i < shorter.len() implies 0 <= #[trigger] shorter[i]
                        < values.len() by {
                        assert(picked[i] == shorter[i]);
                    }
                }
                assert(picked[k - 1] < picked[k]);
                assert(values[picked[k - 1]] < values[picked[k]]);
                assert(shorter.last() == picked[k - 1]);
                assert(values[tails[k - 1] as int] <= values[shorter.last()]);
                assert(values[tails[k - 1] as int] < values[index]);
            }
        }
    }
}

/// Mark one longest strictly increasing subsequence.
/// Ties choose the latest occurrence of an equal tail value.
pub fn increasing_subsequence_members(values: &[usize]) -> (members: Vec<bool>)
    ensures
        marks_longest_increasing(members@, values@),
{
    let mut tails: Vec<usize> = Vec::new();
    let mut previous: Vec<Option<usize>> = Vec::new();
    let mut members: Vec<bool> = Vec::new();
    let mut fill: usize = 0;
    while fill < values.len()
        invariant
            fill <= values.len(),
            previous.len() == fill,
            members.len() == fill,
            forall|i: int| 0 <= i < fill ==> previous[i] is None,
            forall|i: int| 0 <= i < fill ==> !members[i],
        decreases values.len() - fill,
    {
        previous.push(None);
        members.push(false);
        fill += 1;
    }
    let mut index: usize = 0;
    while index < values.len()
        invariant
            index <= values.len(),
            patience_state(values@, previous@, tails@, index as int),
            forall|i: int| index <= i < values.len() ==> previous[i] is None,
        decreases values.len() - index,
    {
        let value = values[index];
        let mut low: usize = 0;
        let mut high: usize = tails.len();
        while low < high
            invariant
                low <= high <= tails.len(),
                index < values.len(),
                value == values[index as int],
                patience_state(values@, previous@, tails@, index as int),
                forall|k: int| 0 <= k < low ==> values[(#[trigger] tails[k]) as int] < value,
                forall|k: int|
                    high <= k < tails.len() ==> values[(#[trigger] tails[k]) as int] >= value,
            decreases high - low,
        {
            let middle: usize = low + (high - low) / 2;
            if values[tails[middle]] < value {
                assert forall|k: int| 0 <= k < middle + 1 implies values[(
                #[trigger] tails[k]) as int] < value by {
                    if k < middle {
                        assert(values[tails[k] as int] < values[tails[middle as int] as int]);
                    }
                }
                low = middle + 1;
            } else {
                assert forall|k: int| middle <= k < tails.len() implies values[(
                #[trigger] tails[k]) as int] >= value by {
                    if k > middle {
                        assert(values[tails[middle as int] as int] < values[tails[k] as int]);
                    }
                }
                high = middle;
            }
        }
        let ghost old_previous = previous@;
        let ghost old_tails = tails@;
        if low > 0 {
            let tail = tails[low - 1];
            previous.set(index, Some(tail));
        }
        proof {
            assert(previous@ =~= old_previous.update(
                index as int,
                if low > 0 {
                    Some(old_tails[low - 1])
                } else {
                    None
                },
            ));
        }
        if low == tails.len() {
            tails.push(index);
        } else {
            tails.set(low, index);
        }
        proof {
            lemma_patience_step(
                values@,
                old_previous,
                old_tails,
                index as int,
                low as int,
                previous@,
                tails@,
            );
        }
        index += 1;
    }
    if tails.len() == 0 {
        proof {
            let picked = Seq::<int>::empty();
            assert(marks_exactly(members@, picked));
            assert forall|other: Seq<int>| is_increasing_selection(values@, other) implies other.len()
                <= picked.len() by {
                if other.len() > 0 {
                    assert(0 <= other[0] < values.len());
                }
            }
        }
        return members;
    }
    let last = tails[tails.len() - 1];
    let ghost full = chain(previous@, last as int);
    let ghost mut rest: Seq<int> = full;
    let mut cursor: usize = last;
    proof {
        assert(good_chain(values@, previous@, last as int, tails.len() as int));
        assert(full.take(rest.len() as int) =~= rest);
    }
    loop
        invariant_except_break
            forall|i: int|
                0 <= i < members.len() ==> (#[trigger] members[i] <==> exists|k: int|
                    rest.len() <= k < full.len() && #[trigger] full[k] == i),
        invariant
            members.len() == values.len(),
            previous.len() == values.len(),
            cursor < values.len(),
            rest == chain(previous@, cursor as int),
            is_increasing_selection(values@, full),
            0 < rest.len() <= full.len(),
            rest == full.take(rest.len() as int),
        ensures
            members.len() == values.len(),
            marks_exactly(members@, full),
        decreases rest.len(),
    {
        let ghost before_marks = members@;
        members.set(cursor, true);
        proof {
            assert(rest.last() == cursor);
            assert(full[rest.len() - 1] == rest[rest.len() - 1]);
            assert forall|i: int| 0 <= i < members.len() implies (#[trigger] members[i] <==> exists|
                k: int,
            |
                rest.len() - 1 <= k < full.len() && #[trigger] full[k] == i) by {
                if i == cursor {
                    assert(full[rest.len() - 1] == i);
                } else {
                    if before_marks[i] {
                        let k = choose|k: int| rest.len() <= k < full.len() && #[trigger] full[k] == i;
                        assert(full[k] == i);
                    }
                }
            }
        }
        match previous[cursor] {
            None => {
                proof {
                    assert(rest == seq![cursor as int]);
                    assert(rest.len() == 1);
                    assert forall|i: int| 0 <= i < members.len() implies (#[trigger] members[i]
                        <==> full.contains(i)) by {
                        if full.contains(i) {
                            let k = choose|k: int| 0 <= k < full.len() && full[k] == i;
                            assert(full[k] == i);
                        }
                    }
                }
                break;
            },
            Some(parent) => {
                proof {
                    let whole = rest;
                    if parent < cursor {
                        rest = chain(previous@, parent as int);
                        assert(whole == rest.push(cursor as int));
                        assert(rest =~= full.take(rest.len() as int)) by {
                            assert(rest =~= whole.drop_last());
                        }
                        assert(rest.len() > 0);
                    }
                }
                if parent >= cursor {
                    proof {
                        assert(rest == seq![cursor as int]);
                        assert forall|i: int| 0 <= i < members.len() implies (#[trigger] members[i]
                            <==> full.contains(i)) by {
                            if full.contains(i) {
                                let k = choose|k: int| 0 <= k < full.len() && full[k] == i;
                                assert(full[k] == i);
                            }
                        }
                    }
                    break;
                }
                cursor = parent;
            },
        }
    }
    proof {
        assert forall|other: Seq<int>| is_increasing_selection(values@, other) implies other.len()
            <= full.len() by {
            if other.len() > 0 {
                assert(0 <= other[other.len() - 1] < values.len());
            }
        }
        assert(picks_latest(values@, full)) by {
            assert(links_latest(values@, full));
            assert(is_latest(values@, last as int, full.len() as int, values@.len() as int));
        }
        assert(marks_exactly(members@, full));
    }
    members
}

/// Indices at which two sequences hold equal values, at or past the given starts.
pub open spec fn equal_at(
    before: Seq<usize>,
    after: Seq<usize>,
    before_start: int,
    after_start: int,
    x: int,
    y: int,
) -> bool {
    before_start <= x < before.len() && after_start <= y < after.len() && before[x] == after[y]
}

/// Retained matches and drift of a matching; more matches win, then less drift.
#[derive(Clone, Copy, PartialEq, Eq, Structural)]
struct AlignmentScore {
    retained: usize,
    drift: usize,
}

spec fn better_spec(left: AlignmentScore, right: AlignmentScore) -> bool {
    left.retained > right.retained || (left.retained == right.retained && left.drift < right.drift)
}

fn better(left: AlignmentScore, right: AlignmentScore) -> (result: bool)
    ensures
        result == better_spec(left, right),
{
    left.retained > right.retained || (left.retained == right.retained && left.drift < right.drift)
}

spec fn index_drift(x: int, y: int) -> int {
    if x >= y {
        x - y
    } else {
        y - x
    }
}

/// Best `(retained, drift)` of an alignment of the two suffixes.
spec fn best_score(before: Seq<usize>, after: Seq<usize>, i: int, j: int) -> (int, int)
    decreases before.len() - i + after.len() - j,
{
    if i < 0 || j < 0 || i >= before.len() || j >= after.len() {
        (0, 0)
    } else {
        let skip_before = best_score(before, after, i + 1, j);
        let skip_after = best_score(before, after, i, j + 1);
        let kept = if score_beats(skip_after, skip_before) {
            skip_after
        } else {
            skip_before
        };
        if before[i] == after[j] {
            let rest = best_score(before, after, i + 1, j + 1);
            let paired = (rest.0 + 1, rest.1 + index_drift(i, j));
            if score_beats(paired, kept) {
                paired
            } else {
                kept
            }
        } else {
            kept
        }
    }
}

spec fn score_beats(left: (int, int), right: (int, int)) -> bool {
    left.0 > right.0 || (left.0 == right.0 && left.1 < right.1)
}

/// Score of a matching as a pair.
spec fn score_of(ms: Seq<OrderedMatch>) -> (int, int)
    decreases ms.len(),
{
    if ms.len() == 0 {
        (0, 0)
    } else {
        let rest = score_of(ms.drop_first());
        (rest.0 + 1, rest.1 + index_drift(ms[0].before as int, ms[0].after as int))
    }
}

proof fn lemma_best_score_bounds(before: Seq<usize>, after: Seq<usize>, i: int, j: int)
    requires
        0 <= i <= before.len(),
        0 <= j <= after.len(),
    ensures
        0 <= best_score(before, after, i, j).0 <= before.len() - i,
        best_score(before, after, i, j).0 <= after.len() - j,
        0 <= best_score(before, after, i, j).1,
        best_score(before, after, i, j).0 == 0 ==> best_score(before, after, i, j).1 == 0,
        best_score(before, after, i, j).1 <= best_score(before, after, i, j).0 * (before.len()
            + after.len()),
    decreases before.len() - i + after.len() - j,
{
    if i < before.len() && j < after.len() {
        lemma_best_score_bounds(before, after, i + 1, j);
        lemma_best_score_bounds(before, after, i, j + 1);
        lemma_best_score_bounds(before, after, i + 1, j + 1);
        let n = before.len() + after.len();
        let rest = best_score(before, after, i + 1, j + 1);
        assert((rest.0 + 1) * n == rest.0 * n + n) by (nonlinear_arith);
    } else {
        assert(0 * (before.len() + after.len()) == 0) by (nonlinear_arith);
    }
}

/// No alignment of the suffixes beats the best score.
proof fn lemma_best_score_is_best(
    before: Seq<usize>,
    after: Seq<usize>,
    i: int,
    j: int,
    ms: Seq<OrderedMatch>,
)
    requires
        0 <= i <= before.len(),
        0 <= j <= after.len(),
        is_alignment(ms, before, after),
        forall|k: int| 0 <= k < ms.len() ==> (#[trigger] ms[k]).before >= i && ms[k].after >= j,
    ensures
        !score_beats(score_of(ms), best_score(before, after, i, j)),
    decreases before.len() - i + after.len() - j,
{
    lemma_best_score_bounds(before, after, i, j);
    if ms.len() == 0 {
    } else {
        assert(ms[0].before < before.len() && ms[0].after < after.len());
        if ms[0].before > i {
            assert forall|k: int| 0 <= k < ms.len() implies (#[trigger] ms[k]).before >= i + 1
                && ms[k].after >= j by {
                if k > 0 {
                    assert(ms[0].before < ms[k].before);
                }
            }
            lemma_best_score_is_best(before, after, i + 1, j, ms);
        } else if ms[0].after > j {
            assert forall|k: int| 0 <= k < ms.len() implies (#[trigger] ms[k]).before >= i
                && ms[k].after >= j + 1 by {
                if k > 0 {
                    assert(ms[0].after < ms[k].after);
                }
            }
            lemma_best_score_is_best(before, after, i, j + 1, ms);
        } else {
            let rest = ms.drop_first();
            assert forall|k: int| 0 <= k < rest.len() implies (#[trigger] rest[k]).before >= i + 1
                && rest[k].after >= j + 1 by {
                assert(rest[k] == ms[k + 1]);
                assert(ms[0].before < ms[k + 1].before);
            }
            assert(pairs_equal(rest, before, after)) by {
                assert forall|k: int| 0 <= k < rest.len() implies (#[trigger] rest[k]).before
                    < before.len() && rest[k].after < after.len() && before[rest[k].before as int]
                    == after[rest[k].after as int] by {
                    assert(rest[k] == ms[k + 1]);
                }
            }
            assert(monotone(rest)) by {
                assert forall|k: int, l: int| 0 <= k < l < rest.len() implies (
                #[trigger] rest[k]).before < (#[trigger] rest[l]).before && rest[k].after
                    < rest[l].after by {
                    assert(rest[k] == ms[k + 1] && rest[l] == ms[l + 1]);
                }
            }
            lemma_best_score_is_best(before, after, i + 1, j + 1, rest);
        }
    }
}

proof fn lemma_score_of_push(ms: Seq<OrderedMatch>, edge: OrderedMatch)
    ensures
        score_of(ms.push(edge)).0 == score_of(ms).0 + 1,
        score_of(ms.push(edge)).1 == score_of(ms).1 + index_drift(
            edge.before as int,
            edge.after as int,
        ),
    decreases ms.len(),
{
    let pushed = ms.push(edge);
    if ms.len() == 0 {
        assert(pushed.drop_first() =~= ms);
    } else {
        assert(pushed.drop_first() =~= ms.drop_first().push(edge));
        lemma_score_of_push(ms.drop_first(), edge);
    }
}

proof fn lemma_score_is_total_drift(ms: Seq<OrderedMatch>)
    ensures
        score_of(ms) == (ms.len() as int, total_drift(ms) as int),
    decreases ms.len(),
{
    if ms.len() > 0 {
        lemma_score_is_total_drift(ms.drop_last());
        lemma_score_of_push(ms.drop_last(), ms.last());
        assert(ms.drop_last().push(ms.last()) =~= ms);
    }
}

/// No alignment retains more edges, and none with as many edges drifts less.
pub open spec fn is_best_alignment(
    ms: Seq<OrderedMatch>,
    before: Seq<usize>,
    after: Seq<usize>,
) -> bool {
    &&& is_alignment(ms, before, after)
    &&& forall|other: Seq<OrderedMatch>|
        #![trigger is_alignment(other, before, after)]
        is_alignment(other, before, after) ==> other.len() < ms.len() || (other.len() == ms.len()
            && total_drift(other) >= total_drift(ms))
}

spec fn cell_index(width: int, i: int, j: int) -> int {
    i * width + j
}

proof fn lemma_cell(width: int, rows: int, i: int, j: int)
    requires
        0 <= i < rows,
        0 <= j < width,
    ensures
        0 <= cell_index(width, i, j) < rows * width,
        i * width <= cell_index(width, i, j),
{
    assert(0 <= i * width + j < rows * width && i * width >= 0) by (nonlinear_arith)
        requires
            0 <= i < rows,
            0 <= j < width,
    ;
}

proof fn lemma_cell_distinct(width: int, i: int, j: int, k: int, l: int)
    requires
        0 <= i,
        0 <= k,
        0 <= j < width,
        0 <= l < width,
        cell_index(width, i, j) == cell_index(width, k, l),
    ensures
        i == k && j == l,
{
    assert(i == k) by (nonlinear_arith)
        requires
            0 <= i,
            0 <= k,
            0 <= j < width,
            0 <= l < width,
            i * width + j == k * width + l,
    ;
}

spec fn cell_holds(
    scores: Seq<AlignmentScore>,
    before: Seq<usize>,
    after: Seq<usize>,
    i: int,
    j: int,
) -> bool {
    let cell = scores[cell_index(after.len() as int + 1, i, j)];
    (cell.retained as int, cell.drift as int) == best_score(before, after, i, j)
}

proof fn lemma_score_fits(before: Seq<usize>, after: Seq<usize>, i: int, j: int)
    requires
        0 <= i <= before.len(),
        0 <= j <= after.len(),
        0 < before.len(),
        0 < after.len(),
        before.len() * after.len() <= MAX_LOCAL_ALIGNMENT_CELLS,
    ensures
        before.len() <= 16_384,
        after.len() <= 16_384,
        best_score(before, after, i, j).0 <= 16_384,
        best_score(before, after, i, j).1 <= 0x2000_0000,
{
    lemma_best_score_bounds(before, after, i, j);
    let n = before.len() as int;
    let m = after.len() as int;
    assert(n <= 16_384 && m <= 16_384) by (nonlinear_arith)
        requires
            0 < n,
            0 < m,
            n * m <= 16_384,
    ;
    let score = best_score(before, after, i, j);
    assert(score.0 * (n + m) <= 16_384 * 32_768) by (nonlinear_arith)
        requires
            0 <= score.0 <= 16_384,
            0 <= n + m <= 32_768,
    ;
}

/// Maximize equal-value matches, breaking ties by the smallest total positional drift.
/// The score table is quadratic, so the gap size is bounded.
pub fn lcs_matches(before: &[usize], after: &[usize]) -> (matches: Vec<OrderedMatch>)
    requires
        before.len() * after.len() <= MAX_LOCAL_ALIGNMENT_CELLS,
    ensures
        is_best_alignment(matches@, before@, after@),
{
    let ghost b = before@;
    let ghost a = after@;
    if before.len() == 0 || after.len() == 0 {
        let matches: Vec<OrderedMatch> = Vec::new();
        proof {
            assert forall|other: Seq<OrderedMatch>|
                #![trigger is_alignment(other, b, a)]
                is_alignment(other, b, a) implies other.len() < matches.len() || (other.len()
                == matches.len() && total_drift(other) >= total_drift(matches@)) by {
                if other.len() > 0 {
                    assert(other[0].before < b.len() && other[0].after < a.len());
                }
            }
        }
        return matches;
    }
    proof {
        lemma_score_fits(b, a, 0, 0);
    }
    let rows = before.len() + 1;
    let width = after.len() + 1;
    proof {
        assert(rows * width <= 0x2000_0000) by (nonlinear_arith)
            requires
                rows <= 16_385,
                width <= 16_385,
        ;
    }
    let mut scores: Vec<AlignmentScore> = Vec::new();
    let total = rows * width;
    let mut fill: usize = 0;
    while fill < total
        invariant
            fill <= total,
            scores.len() == fill,
            forall|i: int|
                0 <= i < fill ==> (#[trigger] scores[i]) == (AlignmentScore {
                    retained: 0,
                    drift: 0,
                }),
        decreases total - fill,
    {
        scores.push(AlignmentScore { retained: 0, drift: 0 });
        fill += 1;
    }
    proof {
        assert forall|k: int, l: int|
            0 <= k <= b.len() && 0 <= l <= a.len() && (k == b.len() || l
                == a.len()) implies #[trigger] cell_holds(scores@, b, a, k, l) by {
            lemma_cell(width as int, rows as int, k, l);
        }
    }
    let mut before_index = before.len();
    while before_index > 0
        invariant
            before_index <= before.len(),
            b == before@,
            a == after@,
            rows == b.len() + 1,
            width == a.len() + 1,
            scores.len() == rows * width,
            rows * width <= 0x2000_0000,
            0 < b.len(),
            0 < a.len(),
            b.len() * a.len() <= MAX_LOCAL_ALIGNMENT_CELLS,
            forall|k: int, l: int|
                0 <= k <= b.len() && 0 <= l <= a.len() && (k >= before_index || l == a.len())
                    ==> #[trigger] cell_holds(scores@, b, a, k, l),
        decreases before_index,
    {
        before_index -= 1;
        let mut after_index = after.len();
        while after_index > 0
            invariant
                after_index <= after.len(),
                before_index < before.len(),
                b == before@,
                a == after@,
                rows == b.len() + 1,
                width == a.len() + 1,
                scores.len() == rows * width,
                rows * width <= 0x2000_0000,
                0 < b.len(),
                0 < a.len(),
                b.len() * a.len() <= MAX_LOCAL_ALIGNMENT_CELLS,
                forall|k: int, l: int|
                    0 <= k <= b.len() && 0 <= l <= a.len() && (k > before_index || l == a.len()
                        || (k == before_index && l >= after_index)) ==> #[trigger] cell_holds(
                        scores@,
                        b,
                        a,
                        k,
                        l,
                    ),
            decreases after_index,
        {
            after_index -= 1;
            let ghost i = before_index as int;
            let ghost j = after_index as int;
            proof {
                lemma_cell(width as int, rows as int, i, j);
                lemma_cell(width as int, rows as int, i + 1, j);
                lemma_cell(width as int, rows as int, i, j + 1);
                lemma_cell(width as int, rows as int, i + 1, j + 1);
                assert(cell_holds(scores@, b, a, i + 1, j));
                assert(cell_holds(scores@, b, a, i, j + 1));
                assert(cell_holds(scores@, b, a, i + 1, j + 1));
                lemma_score_fits(b, a, i + 1, j + 1);
            }
            let mut score = scores[(before_index + 1) * width + after_index];
            let skip_after = scores[before_index * width + after_index + 1];
            if better(skip_after, score) {
                score = skip_after;
            }
            if before[before_index] == after[after_index] {
                let paired = paired_score(
                    scores[(before_index + 1) * width + after_index + 1],
                    before_index,
                    after_index,
                );
                if better(paired, score) {
                    score = paired;
                }
            }
            let ghost old_scores = scores@;
            scores.set(before_index * width + after_index, score);
            proof {
                assert forall|k: int, l: int|
                    0 <= k <= b.len() && 0 <= l <= a.len() && (k > before_index || l == a.len()
                        || (k == before_index && l >= after_index)) implies #[trigger] cell_holds(
                    scores@,
                    b,
                    a,
                    k,
                    l,
                ) by {
                    lemma_cell(width as int, rows as int, k, l);
                    if k == i && l == j {
                    } else {
                        assert(cell_holds(old_scores, b, a, k, l));
                        if cell_index(width as int, k, l) == cell_index(width as int, i, j) {
                            lemma_cell_distinct(width as int, k, l, i, j);
                        }
                    }
                }
            }
        }
    }

    let mut matches: Vec<OrderedMatch> = Vec::new();
    let mut before_index: usize = 0;
    let mut after_index: usize = 0;
    while before_index < before.len() && after_index < after.len()
        invariant
            before_index <= before.len(),
            after_index <= after.len(),
            b == before@,
            a == after@,
            rows == b.len() + 1,
            width == a.len() + 1,
            scores.len() == rows * width,
            rows * width <= 0x2000_0000,
            0 < b.len(),
            0 < a.len(),
            b.len() * a.len() <= MAX_LOCAL_ALIGNMENT_CELLS,
            forall|k: int, l: int|
                0 <= k <= b.len() && 0 <= l <= a.len() ==> #[trigger] cell_holds(
                    scores@,
                    b,
                    a,
                    k,
                    l,
                ),
            is_alignment(matches@, b, a),
            forall|k: int|
                0 <= k < matches.len() ==> (#[trigger] matches[k]).before < before_index
                    && matches[k].after < after_index,
            score_of(matches@).0 + best_score(b, a, before_index as int, after_index as int).0
                == best_score(b, a, 0, 0).0,
            score_of(matches@).1 + best_score(b, a, before_index as int, after_index as int).1
                == best_score(b, a, 0, 0).1,
        decreases before.len() - before_index + after.len() - after_index,
    {
        let ghost i = before_index as int;
        let ghost j = after_index as int;
        proof {
            lemma_cell(width as int, rows as int, i, j);
            lemma_cell(width as int, rows as int, i + 1, j);
            lemma_cell(width as int, rows as int, i, j + 1);
            lemma_cell(width as int, rows as int, i + 1, j + 1);
            assert(cell_holds(scores@, b, a, i, j));
            assert(cell_holds(scores@, b, a, i + 1, j));
            assert(cell_holds(scores@, b, a, i, j + 1));
            assert(cell_holds(scores@, b, a, i + 1, j + 1));
            lemma_score_fits(b, a, i + 1, j + 1);
        }
        let target = scores[before_index * width + after_index];
        if before[before_index] == after[after_index] {
            let paired = paired_score(
                scores[(before_index + 1) * width + after_index + 1],
                before_index,
                after_index,
            );
            if paired == target {
                let edge = OrderedMatch { before: before_index, after: after_index };
                proof {
                    lemma_score_of_push(matches@, edge);
                }
                matches.push(edge);
                before_index += 1;
                after_index += 1;
                continue;
            }
        }
        let skip_before = scores[(before_index + 1) * width + after_index];
        let skip_after = scores[before_index * width + after_index + 1];
        if skip_before == target && (skip_after != target || before.len() - before_index
            >= after.len() - after_index) {
            before_index += 1;
        } else {
            assert(skip_after == target);
            after_index += 1;
        }
    }
    proof {
        assert forall|other: Seq<OrderedMatch>|
            #![trigger is_alignment(other, b, a)]
            is_alignment(other, b, a) implies other.len() < matches.len() || (other.len()
            == matches.len() && total_drift(other) >= total_drift(matches@)) by {
            lemma_best_score_is_best(b, a, 0, 0, other);
            lemma_score_is_total_drift(other);
            lemma_score_is_total_drift(matches@);
        }
    }
    matches
}

/// Score of pairing the two indices in front of an already scored remainder.
fn paired_score(rest: AlignmentScore, before: usize, after: usize) -> (paired: AlignmentScore)
    requires
        rest.retained <= 16_384,
        rest.drift <= 0x2000_0000,
        before < 16_384,
        after < 16_384,
    ensures
        paired.retained == rest.retained + 1,
        paired.drift == rest.drift + index_drift(before as int, after as int),
{
    let drift = if before >= after {
        before - after
    } else {
        after - before
    };
    AlignmentScore { retained: rest.retained + 1, drift: rest.drift + drift }
}

/// First index at or past `from` that holds `value`, or the length.
pub open spec fn next_at(values: Seq<usize>, value: usize, from: int) -> int
    decreases values.len() - from,
{
    if from >= values.len() {
        values.len() as int
    } else if values[from] == value {
        from
    } else {
        next_at(values, value, from + 1)
    }
}

/// Occurrences of `value` before index `end`.
pub open spec fn occurrences(values: Seq<usize>, value: usize, end: int) -> nat
    decreases end,
{
    if end <= 0 {
        0
    } else {
        occurrences(values, value, end - 1) + if values[end - 1] == value {
            1nat
        } else {
            0nat
        }
    }
}

proof fn lemma_next_at(values: Seq<usize>, value: usize, from: int)
    requires
        0 <= from <= values.len(),
    ensures
        from <= next_at(values, value, from) <= values.len(),
        next_at(values, value, from) < values.len() ==> values[next_at(values, value, from)]
            == value,
        forall|k: int| from <= k < next_at(values, value, from) ==> values[k] != value,
    decreases values.len() - from,
{
    if from < values.len() && values[from] != value {
        lemma_next_at(values, value, from + 1);
    }
}

proof fn lemma_occurrences_gap(values: Seq<usize>, value: usize, from: int, to: int)
    requires
        0 <= from <= to <= values.len(),
        forall|k: int| from <= k < to ==> values[k] != value,
    ensures
        occurrences(values, value, to) == occurrences(values, value, from),
    decreases to - from,
{
    if from < to {
        lemma_occurrences_gap(values, value, from, to - 1);
    }
}

proof fn lemma_occurrences_monotone(values: Seq<usize>, value: usize, from: int, to: int)
    requires
        0 <= from <= to <= values.len(),
    ensures
        occurrences(values, value, from) <= occurrences(values, value, to),
        from < to && values[from] == value ==> occurrences(values, value, from) < occurrences(
            values,
            value,
            to,
        ),
    decreases to - from,
{
    if from < to {
        lemma_occurrences_monotone(values, value, from, to - 1);
        if from < to - 1 {
            lemma_occurrences_monotone(values, value, to - 1, to);
        }
    }
}

/// Positions of each value: its first index, and the next index of the same value.
struct Positions {
    first: HashMap<usize, usize>,
    next: Vec<usize>,
}

impl Positions {
    spec fn describes(self, values: Seq<usize>, from: int) -> bool {
        &&& self.next.len() == values.len()
        &&& forall|v: usize| #[trigger]
            self.first@.contains_key(v) ==> self.first@[v] == next_at(values, v, from)
                && self.first@[v] < values.len()
        &&& forall|v: usize|
            next_at(values, v, from) < values.len() ==> #[trigger] self.first@.contains_key(v)
        &&& forall|i: int|
            from <= i < values.len() ==> (#[trigger] self.next[i]) == next_at(
                values,
                values[i],
                i + 1,
            )
    }

    /// Index every occurrence of every value.
    fn new(values: &[usize]) -> (positions: Self)
        ensures
            positions.describes(values@, 0),
    {
        let mut first: HashMap<usize, usize> = HashMap::new();
        let mut next: Vec<usize> = Vec::new();
        let len = values.len();
        let mut fill: usize = 0;
        while fill < len
            invariant
                fill <= len,
                next.len() == fill,
            decreases len - fill,
        {
            next.push(len);
            fill += 1;
        }
        let mut positions = Positions { first, next };
        let mut index = len;
        while index > 0
            invariant
                index <= len,
                len == values.len(),
                positions.describes(values@, index as int),
            decreases index,
        {
            index -= 1;
            let value = values[index];
            let following: usize = match positions.first.get(&value) {
                Some(found) => *found,
                None => len,
            };
            let ghost earlier = positions;
            proof {
                lemma_next_at(values@, value, index + 1);
                assert(following == next_at(values@, value, index + 1));
            }
            positions.next.set(index, following);
            positions.first.insert(value, index);
            proof {
                assert forall|v: usize| #[trigger]
                    positions.first@.contains_key(v) implies positions.first@[v] == next_at(
                    values@,
                    v,
                    index as int,
                ) && positions.first@[v] < values.len() by {
                    if v != value {
                        assert(earlier.first@.contains_key(v));
                    }
                }
                assert forall|v: usize|
                    next_at(values@, v, index as int)
                        < values.len() implies #[trigger] positions.first@.contains_key(v) by {
                    if v != value {
                        assert(earlier.first@.contains_key(v));
                    }
                }
            }
        }
        positions
    }

    /// First indexed position of a value, or the length of the sequence.
    fn head(&self, value: usize, Ghost(values): Ghost<Seq<usize>>) -> (head: usize)
        requires
            self.describes(values, 0),
        ensures
            head == next_at(values, value, 0),
    {
        match self.first.get(&value) {
            Some(found) => *found,
            None => {
                proof {
                    lemma_next_at(values, value, 0);
                }
                self.next.len()
            },
        }
    }
}

/// Match each value to its first equal partner past the previous match.
pub open spec fn greedy_from(
    before: Seq<usize>,
    after: Seq<usize>,
    index: int,
    floor: int,
) -> Seq<OrderedMatch>
    decreases before.len() - index,
{
    if index >= before.len() {
        Seq::empty()
    } else {
        let found = next_at(after, before[index], floor);
        if found < after.len() {
            seq![OrderedMatch { before: index as usize, after: found as usize }] + greedy_from(
                before,
                after,
                index + 1,
                found + 1,
            )
        } else {
            greedy_from(before, after, index + 1, floor)
        }
    }
}

proof fn lemma_greedy_is_alignment(
    before: Seq<usize>,
    after: Seq<usize>,
    index: int,
    floor: int,
)
    requires
        0 <= index <= before.len() <= usize::MAX,
        0 <= floor <= after.len() <= usize::MAX,
    ensures
        is_alignment(greedy_from(before, after, index, floor), before, after),
        forall|k: int|
            0 <= k < greedy_from(before, after, index, floor).len() ==> (#[trigger] greedy_from(
                before,
                after,
                index,
                floor,
            )[k]).before >= index && greedy_from(before, after, index, floor)[k].after >= floor,
    decreases before.len() - index,
{
    if index < before.len() {
        let found = next_at(after, before[index], floor);
        lemma_next_at(after, before[index], floor);
        let whole = greedy_from(before, after, index, floor);
        if found < after.len() {
            lemma_greedy_is_alignment(before, after, index + 1, found + 1);
            let rest = greedy_from(before, after, index + 1, found + 1);
            assert forall|i: int, j: int| 0 <= i < j < whole.len() implies (
            #[trigger] whole[i]).before < (#[trigger] whole[j]).before && whole[i].after
                < whole[j].after by {
                assert(whole[j] == rest[j - 1]);
                if i > 0 {
                    assert(whole[i] == rest[i - 1]);
                }
            }
            assert forall|i: int| 0 <= i < whole.len() implies (#[trigger] whole[i]).before
                < before.len() && whole[i].after < after.len() && before[whole[i].before as int]
                == after[whole[i].after as int] && whole[i].before >= index && whole[i].after
                >= floor by {
                if i > 0 {
                    assert(whole[i] == rest[i - 1]);
                }
            }
        } else {
            lemma_greedy_is_alignment(before, after, index + 1, floor);
        }
    }
}

proof fn lemma_greedy_identity(values: Seq<usize>, index: int)
    requires
        0 <= index <= values.len() <= usize::MAX,
    ensures
        greedy_from(values, values, index, index).len() == values.len() - index,
        forall|k: int|
            0 <= k < values.len() - index ==> (#[trigger] greedy_from(
                values,
                values,
                index,
                index,
            )[k]) == (OrderedMatch { before: (index + k) as usize, after: (index + k) as usize }),
    decreases values.len() - index,
{
    if index < values.len() {
        lemma_greedy_identity(values, index + 1);
        let whole = greedy_from(values, values, index, index);
        let rest = greedy_from(values, values, index + 1, index + 1);
        assert forall|k: int| 0 <= k < values.len() - index implies (#[trigger] whole[k]) == (
        OrderedMatch { before: (index + k) as usize, after: (index + k) as usize }) by {
            if k > 0 {
                assert(whole[k] == rest[k - 1]);
            }
        }
    }
}

/// Align a large gap in linear memory; the result may retain fewer matches than LCS.
pub fn greedy_matches(before: &[usize], after: &[usize]) -> (matches: Vec<OrderedMatch>)
    ensures
        matches@ == greedy_from(before@, after@, 0, 0),
        is_alignment(matches@, before@, after@),
{
    let ghost a = after@;
    let mut positions = Positions::new(after);
    let mut matches: Vec<OrderedMatch> = Vec::new();
    let mut after_floor: usize = 0;
    let mut index: usize = 0;
    assert(before.len() <= usize::MAX && after.len() <= usize::MAX);
    proof {
        lemma_greedy_is_alignment(before@, after@, 0, 0);
        assert forall|v: usize| #[trigger] positions.first@.contains_key(v) implies {
            &&& positions.first@[v] <= next_at(a, v, after_floor as int)
            &&& positions.first@[v] < a.len() ==> a[positions.first@[v] as int] == v
        } by {
            lemma_next_at(a, v, 0);
        }
    }
    while index < before.len()
        invariant
            index <= before.len(),
            a == after@,
            after_floor <= a.len(),
            positions.next.len() == a.len(),
            forall|i: int|
                0 <= i < a.len() ==> (#[trigger] positions.next[i]) == next_at(a, a[i], i + 1),
            forall|v: usize|
                next_at(a, v, 0) < a.len() ==> #[trigger] positions.first@.contains_key(v),
            forall|v: usize| #[trigger]
                positions.first@.contains_key(v) ==> {
                    &&& positions.first@[v] <= next_at(a, v, after_floor as int)
                    &&& positions.first@[v] < a.len() ==> a[positions.first@[v] as int] == v
                },
            greedy_from(before@, a, 0, 0) == matches@ + greedy_from(
                before@,
                a,
                index as int,
                after_floor as int,
            ),
        decreases before.len() - index,
    {
        let value = before[index];
        proof {
            lemma_next_at(a, value, after_floor as int);
            lemma_next_at(a, value, 0);
        }
        let head: usize = match positions.first.get(&value) {
            Some(found) => *found,
            None => after.len(),
        };
        let mut found: usize = head;
        while found < after_floor
            invariant
                found <= a.len(),
                after_floor <= a.len(),
                positions.next.len() == a.len(),
                forall|i: int|
                    0 <= i < a.len() ==> (#[trigger] positions.next[i]) == next_at(a, a[i], i + 1),
                found <= next_at(a, value, after_floor as int) <= a.len(),
                found < a.len() ==> a[found as int] == value,
            decreases a.len() - found,
        {
            proof {
                lemma_next_at(a, value, found + 1);
                lemma_next_at(a, value, after_floor as int);
                let next = next_at(a, value, found + 1);
                let target = next_at(a, value, after_floor as int);
                if next > target {
                    assert(a[target] != value);
                }
            }
            found = positions.next[found];
        }
        proof {
            if found > after_floor && found < a.len() {
                lemma_next_at(a, value, after_floor as int);
            }
            assert(found == next_at(a, value, after_floor as int)) by {
                lemma_next_at(a, value, after_floor as int);
                if found < next_at(a, value, after_floor as int) {
                    assert(a[found as int] != value);
                }
            }
        }
        if found < after.len() {
            let ghost old_first = positions.first@;
            let ghost old_floor = after_floor as int;
            let following = positions.next[found];
            positions.first.insert(value, following);
            let edge = OrderedMatch { before: index, after: found };
            let ghost old_matches = matches@;
            matches.push(edge);
            after_floor = found + 1;
            proof {
                let tail = greedy_from(before@, a, index + 1, found + 1);
                assert(old_matches + (seq![edge] + tail) =~= matches@ + tail);
                assert forall|v: usize| #[trigger] positions.first@.contains_key(v) implies {
                    &&& positions.first@[v] <= next_at(a, v, after_floor as int)
                    &&& positions.first@[v] < a.len() ==> a[positions.first@[v] as int] == v
                } by {
                    lemma_next_at(a, v, old_floor);
                    lemma_next_at(a, v, found + 1);
                    if v != value {
                        assert(old_first.contains_key(v));
                        let target = next_at(a, v, found + 1);
                        if target < next_at(a, v, old_floor) {
                            assert(a[target] != v);
                        }
                    }
                }
            }
        }
        index += 1;
    }
    proof {
        assert(matches@ + Seq::<OrderedMatch>::empty() =~= matches@);
    }
    matches
}

/// The edge joins the same occurrence number of one value on both sides.
pub open spec fn same_occurrence(before: Seq<usize>, after: Seq<usize>, x: int, y: int) -> bool {
    &&& 0 <= x < before.len()
    &&& 0 <= y < after.len()
    &&& before[x] == after[y]
    &&& occurrences(before, before[x], x) == occurrences(after, after[y], y)
}

/// Exactly the edges between same-numbered occurrences, ordered by their before index.
pub open spec fn is_occurrence_matching(
    ms: Seq<OrderedMatch>,
    before: Seq<usize>,
    after: Seq<usize>,
) -> bool {
    &&& forall|i: int|
        0 <= i < ms.len() ==> same_occurrence(
            before,
            after,
            (#[trigger] ms[i]).before as int,
            ms[i].after as int,
        )
    &&& forall|i: int, j: int|
        0 <= i < j < ms.len() ==> (#[trigger] ms[i]).before < (#[trigger] ms[j]).before
    &&& forall|x: int, y: int| #[trigger]
        same_occurrence(before, after, x, y) ==> ms.contains(
            OrderedMatch { before: x as usize, after: y as usize },
        )
}

/// Occurrence numbers tell the partners apart, so the matching is one to one.
pub proof fn law_occurrence_matching_is_one_to_one(
    ms: Seq<OrderedMatch>,
    before: Seq<usize>,
    after: Seq<usize>,
)
    requires
        is_occurrence_matching(ms, before, after),
    ensures
        pairs_equal(ms, before, after),
        one_to_one(ms),
{
    assert forall|i: int, j: int| 0 <= i < ms.len() && 0 <= j < ms.len() && i != j implies (
    #[trigger] ms[i]).before != (#[trigger] ms[j]).before && ms[i].after != ms[j].after by {
        let x = ms[i].before as int;
        let z = ms[j].before as int;
        if x < z {
            lemma_occurrences_monotone(before, before[x], x, z);
        } else {
            lemma_occurrences_monotone(before, before[z], z, x);
        }
    }
}

/// Pair equal values regardless of order, matching repeated values by occurrence number.
pub fn unordered_matches(before: &[usize], after: &[usize]) -> (matches: Vec<OrderedMatch>)
    ensures
        is_occurrence_matching(matches@, before@, after@),
{
    let ghost a = after@;
    let ghost b = before@;
    let mut positions = Positions::new(after);
    let mut matches: Vec<OrderedMatch> = Vec::new();
    let mut index: usize = 0;
    proof {
        assert forall|v: usize| #[trigger] positions.first@.contains_key(v) implies {
            &&& positions.first@[v] < a.len() ==> a[positions.first@[v] as int] == v
                && occurrences(a, v, positions.first@[v] as int) == occurrences(b, v, 0)
            &&& positions.first@[v] == a.len() ==> occurrences(a, v, a.len() as int) <= occurrences(
                b,
                v,
                0,
            )
        } by {
            lemma_next_at(a, v, 0);
            lemma_occurrences_gap(a, v, 0, next_at(a, v, 0));
        }
    }
    while index < before.len()
        invariant
            index <= before.len(),
            a == after@,
            b == before@,
            positions.next.len() == a.len(),
            forall|i: int|
                0 <= i < a.len() ==> (#[trigger] positions.next[i]) == next_at(a, a[i], i + 1),
            forall|v: usize|
                next_at(a, v, 0) < a.len() ==> #[trigger] positions.first@.contains_key(v),
            forall|v: usize| #[trigger]
                positions.first@.contains_key(v) ==> {
                    &&& positions.first@[v] <= a.len()
                    &&& positions.first@[v] < a.len() ==> a[positions.first@[v] as int] == v
                        && occurrences(a, v, positions.first@[v] as int) == occurrences(
                        b,
                        v,
                        index as int,
                    )
                    &&& positions.first@[v] == a.len() ==> occurrences(a, v, a.len() as int)
                        <= occurrences(b, v, index as int)
                },
            forall|i: int|
                0 <= i < matches.len() ==> (#[trigger] matches[i]).before < index
                    && same_occurrence(b, a, matches[i].before as int, matches[i].after as int),
            forall|i: int, j: int|
                0 <= i < j < matches.len() ==> (#[trigger] matches[i]).before < (
                #[trigger] matches[j]).before,
            forall|x: int, y: int|
                x < index && #[trigger] same_occurrence(b, a, x, y) ==> matches@.contains(
                    OrderedMatch { before: x as usize, after: y as usize },
                ),
        decreases before.len() - index,
    {
        let value = before[index];
        let head: usize = match positions.first.get(&value) {
            Some(found) => *found,
            None => after.len(),
        };
        let ghost old_first = positions.first@;
        let ghost old_matches = matches@;
        proof {
            lemma_next_at(a, value, 0);
            if next_at(a, value, 0) >= a.len() {
                lemma_occurrences_gap(a, value, 0, a.len() as int);
            }
        }
        if head < after.len() {
            let following = positions.next[head];
            positions.first.insert(value, following);
            matches.push(OrderedMatch { before: index, after: head });
            proof {
                lemma_next_at(a, value, head + 1);
                lemma_occurrences_gap(a, value, head + 1, following as int);
            }
        }
        proof {
            assert forall|x: int, y: int|
                x < index + 1 && #[trigger] same_occurrence(
                    b,
                    a,
                    x,
                    y,
                ) implies matches@.contains(
                OrderedMatch { before: x as usize, after: y as usize },
            ) by {
                if x < index {
                    assert(old_matches.contains(
                        OrderedMatch { before: x as usize, after: y as usize },
                    ));
                    let k = choose|k: int|
                        0 <= k < old_matches.len() && old_matches[k] == (OrderedMatch {
                            before: x as usize,
                            after: y as usize,
                        });
                    assert(matches@[k] == old_matches[k]);
                } else {
                    lemma_occurrences_monotone(a, value, y, a.len() as int);
                    if head < a.len() {
                        if y < head {
                            lemma_occurrences_monotone(a, value, y, head as int);
                        } else if head < y {
                            lemma_occurrences_monotone(a, value, head as int, y);
                        }
                        assert(matches@[matches.len() - 1] == (OrderedMatch {
                            before: x as usize,
                            after: y as usize,
                        }));
                    }
                }
            }
            assert forall|v: usize| #[trigger] positions.first@.contains_key(v) implies {
                &&& positions.first@[v] <= a.len()
                &&& positions.first@[v] < a.len() ==> a[positions.first@[v] as int] == v
                    && occurrences(a, v, positions.first@[v] as int) == occurrences(
                    b,
                    v,
                    index + 1,
                )
                &&& positions.first@[v] == a.len() ==> occurrences(a, v, a.len() as int)
                    <= occurrences(b, v, index + 1)
            } by {
                if v != value {
                    assert(old_first.contains_key(v));
                }
            }
        }
        index += 1;
    }
    matches
}

/// Distances of an edge from the two starts, compared as `(radius, sum, after, before)`.
pub open spec fn nearer_or_same(
    left: OrderedMatch,
    right: OrderedMatch,
    before_start: int,
    after_start: int,
) -> bool {
    let left_before = left.before - before_start;
    let left_after = left.after - after_start;
    let right_before = right.before - before_start;
    let right_after = right.after - after_start;
    let left_radius = if left_before >= left_after {
        left_before
    } else {
        left_after
    };
    let right_radius = if right_before >= right_after {
        right_before
    } else {
        right_after
    };
    ||| left_radius < right_radius
    ||| left_radius == right_radius && left_before + left_after < right_before + right_after
    ||| left_radius == right_radius && left_before + left_after == right_before + right_after
        && left.after <= right.after
}

/// The nearest equal pair at or past the starts.
pub open spec fn is_nearest_pair(
    before: Seq<usize>,
    after: Seq<usize>,
    before_start: int,
    after_start: int,
    edge: OrderedMatch,
) -> bool {
    &&& equal_at(
        before,
        after,
        before_start,
        after_start,
        edge.before as int,
        edge.after as int,
    )
    &&& forall|x: int, y: int| #[trigger]
        equal_at(before, after, before_start, after_start, x, y) ==> nearer_or_same(
            edge,
            OrderedMatch { before: x as usize, after: y as usize },
            before_start,
            after_start,
        )
}

/// Start of the region past the first `k` edges.
pub open spec fn before_start_at(ms: Seq<OrderedMatch>, k: int) -> int {
    if k <= 0 {
        0
    } else {
        ms[k - 1].before + 1
    }
}

/// Start of the region past the first `k` edges.
pub open spec fn after_start_at(ms: Seq<OrderedMatch>, k: int) -> int {
    if k <= 0 {
        0
    } else {
        ms[k - 1].after + 1
    }
}

/// The edge at a place is the nearest equal pair past the edges before it.
pub open spec fn extends_chain(
    ms: Seq<OrderedMatch>,
    before: Seq<usize>,
    after: Seq<usize>,
    k: int,
) -> bool {
    is_nearest_pair(before, after, before_start_at(ms, k), after_start_at(ms, k), ms[k])
}

/// Each edge is the nearest equal pair past its predecessor, and none is left over.
pub open spec fn is_locality_chain(
    ms: Seq<OrderedMatch>,
    before: Seq<usize>,
    after: Seq<usize>,
) -> bool {
    &&& forall|k: int| 0 <= k < ms.len() ==> #[trigger] extends_chain(ms, before, after, k)
    &&& forall|x: int, y: int|
        !(#[trigger] equal_at(
            before,
            after,
            before_start_at(ms, ms.len() as int),
            after_start_at(ms, ms.len() as int),
            x,
            y,
        ))
}

/// A chain of nearest pairs never crosses itself.
pub proof fn law_locality_chain_is_alignment(
    ms: Seq<OrderedMatch>,
    before: Seq<usize>,
    after: Seq<usize>,
)
    requires
        is_locality_chain(ms, before, after),
    ensures
        is_alignment(ms, before, after),
{
    assert forall|i: int, j: int| 0 <= i < j < ms.len() implies (#[trigger] ms[i]).before < (
    #[trigger] ms[j]).before && ms[i].after < ms[j].after by {
        lemma_locality_order(ms, before, after, i, j);
    }
    assert forall|k: int| 0 <= k < ms.len() implies (#[trigger] ms[k]).before < before.len()
        && ms[k].after < after.len() && before[ms[k].before as int] == after[ms[k].after as int] by {
        assert(extends_chain(ms, before, after, k));
    }
}

proof fn lemma_locality_order(
    ms: Seq<OrderedMatch>,
    before: Seq<usize>,
    after: Seq<usize>,
    i: int,
    j: int,
)
    requires
        is_locality_chain(ms, before, after),
        0 <= i < j < ms.len(),
    ensures
        ms[i].before < ms[j].before,
        ms[i].after < ms[j].after,
    decreases j - i,
{
    assert(extends_chain(ms, before, after, j));
    if i < j - 1 {
        lemma_locality_order(ms, before, after, i, j - 1);
    }
}

/// Seen positions in a window: each value of the window maps to its first index there.
spec fn window_index(seen: Map<usize, usize>, values: Seq<usize>, start: int, end: int) -> bool {
    &&& forall|v: usize| #[trigger]
        seen.contains_key(v) ==> start <= seen[v] < end && seen[v] < values.len()
            && values[seen[v] as int] == v && forall|k: int| start <= k < seen[v] ==> values[k] != v
    &&& forall|k: int|
        start <= k < end && k < values.len() ==> seen.contains_key(#[trigger] values[k])
}

/// Find the nearest equal pair at or past the starts.
fn nearest_pair(
    before: &[usize],
    after: &[usize],
    before_start: usize,
    after_start: usize,
) -> (found: Option<OrderedMatch>)
    requires
        before_start < before.len(),
        after_start < after.len(),
    ensures
        match found {
            Some(edge) => is_nearest_pair(
                before@,
                after@,
                before_start as int,
                after_start as int,
                edge,
            ),
            None => forall|x: int, y: int|
                !(#[trigger] equal_at(
                    before@,
                    after@,
                    before_start as int,
                    after_start as int,
                    x,
                    y,
                )),
        },
{
    let ghost b = before@;
    let ghost a = after@;
    let ghost bs = before_start as int;
    let ghost as_ = after_start as int;
    let mut before_seen: HashMap<usize, usize> = HashMap::new();
    let mut after_seen: HashMap<usize, usize> = HashMap::new();
    let before_rest = before.len() - before_start;
    let after_rest = after.len() - after_start;
    let remaining = if before_rest > after_rest {
        before_rest
    } else {
        after_rest
    };
    let mut radius: usize = 0;
    while radius < remaining
        invariant
            b == before@,
            a == after@,
            bs == before_start,
            as_ == after_start,
            before_start < before.len(),
            after_start < after.len(),
            before_rest == before.len() - before_start,
            after_rest == after.len() - after_start,
            remaining >= before_rest,
            remaining >= after_rest,
            remaining == before_rest || remaining == after_rest,
            radius <= remaining,
            window_index(before_seen@, b, bs, bs + radius),
            window_index(after_seen@, a, as_, as_ + radius),
            forall|x: int, y: int| #[trigger]
                equal_at(b, a, bs, as_, x, y) ==> x >= bs + radius || y >= as_ + radius,
        decreases remaining - radius,
    {
        let mut found: Option<OrderedMatch> = None;
        let ghost old_before = before_seen@;
        let ghost old_after = after_seen@;
        if radius < before_rest {
            let index: usize = before_start + radius;
            let value = before[index];
            if !before_seen.contains_key(&value) {
                before_seen.insert(value, index);
            }
            if let Some(partner) = after_seen.get(&value) {
                found = Some(OrderedMatch { before: index, after: *partner });
            }
        }
        proof {
            assert(window_index(before_seen@, b, bs, bs + radius + 1));
            if found is Some {
                let edge = found->0;
                assert(equal_at(b, a, bs, as_, edge.before as int, edge.after as int));
            }
            assert forall|y: int|
                radius < before_rest && as_ <= y < as_ + radius && y < a.len() && a[y] == b[bs
                    + radius] implies found is Some && found->0.after <= y by {
                assert(after_seen@.contains_key(a[y]));
            }
        }
        let ghost first = found;
        if radius < after_rest {
            let index: usize = after_start + radius;
            let value = after[index];
            if !after_seen.contains_key(&value) {
                after_seen.insert(value, index);
            }
            if let Some(partner) = before_seen.get(&value) {
                let candidate = OrderedMatch { before: *partner, after: index };
                found = match found {
                    Some(edge) => {
                        let left: u128 = (edge.before - before_start) as u128 + (edge.after
                            - after_start) as u128;
                        let right: u128 = (candidate.before - before_start) as u128 + (
                        candidate.after - after_start) as u128;
                        if right < left || (right == left && candidate.after < edge.after) {
                            Some(candidate)
                        } else {
                            Some(edge)
                        }
                    },
                    None => Some(candidate),
                };
            }
        }
        proof {
            assert(window_index(after_seen@, a, as_, as_ + radius + 1));
            assert forall|x: int, y: int| #[trigger]
                equal_at(b, a, bs, as_, x, y) && x <= bs + radius && y <= as_
                    + radius implies found is Some && nearer_or_same(
                found->0,
                OrderedMatch { before: x as usize, after: y as usize },
                bs,
                as_,
            ) by {
                if y == as_ + radius {
                    assert(before_seen@.contains_key(b[x]));
                    assert(before_seen@[a[y]] <= x);
                } else {
                    assert(x == bs + radius);
                    assert(first is Some && first->0.after <= y);
                }
            }
            if found is Some {
                let edge = found->0;
                assert(equal_at(b, a, bs, as_, edge.before as int, edge.after as int));
                assert forall|x: int, y: int| #[trigger]
                    equal_at(b, a, bs, as_, x, y) implies nearer_or_same(
                    edge,
                    OrderedMatch { before: x as usize, after: y as usize },
                    bs,
                    as_,
                ) by {
                    if x <= bs + radius && y <= as_ + radius {
                    }
                }
            }
        }
        if found.is_some() {
            return found;
        }
        radius += 1;
    }
    None
}

/// Align atomic units locally so copied runs do not pull surviving lines out of place.
pub fn locality_first_matches(before: &[usize], after: &[usize]) -> (matches: Vec<OrderedMatch>)
    ensures
        is_locality_chain(matches@, before@, after@),
        is_alignment(matches@, before@, after@),
{
    let ghost b = before@;
    let ghost a = after@;
    let mut matches: Vec<OrderedMatch> = Vec::new();
    let mut before_start: usize = 0;
    let mut after_start: usize = 0;
    let mut open: bool = true;
    while open && before_start < before.len() && after_start < after.len()
        invariant
            b == before@,
            a == after@,
            before_start <= before.len(),
            after_start <= after.len(),
            before_start == before_start_at(matches@, matches.len() as int),
            after_start == after_start_at(matches@, matches.len() as int),
            forall|k: int|
                0 <= k < matches.len() ==> #[trigger] extends_chain(matches@, b, a, k),
            !open ==> forall|x: int, y: int|
                !(#[trigger] equal_at(b, a, before_start as int, after_start as int, x, y)),
        decreases
            before.len() - before_start,
            if open {
                1int
            } else {
                0int
            },
    {
        match nearest_pair(before, after, before_start, after_start) {
            None => {
                open = false;
            },
            Some(edge) => {
                let ghost earlier = matches@;
                matches.push(edge);
                before_start = edge.before + 1;
                after_start = edge.after + 1;
                proof {
                    assert forall|k: int| 0 <= k < matches.len() implies #[trigger] extends_chain(
                        matches@,
                        b,
                        a,
                        k,
                    ) by {
                        assert(before_start_at(matches@, k) == before_start_at(earlier, k));
                        assert(after_start_at(matches@, k) == after_start_at(earlier, k));
                        if k < earlier.len() {
                            assert(extends_chain(earlier, b, a, k));
                            assert(earlier[k] == matches[k]);
                        }
                    }
                }
            },
        }
    }
    proof {
        law_locality_chain_is_alignment(matches@, b, a);
    }
    matches
}

/// The value occurs exactly once on each side, at the edge's endpoints.
pub open spec fn unique_pair(before: Seq<usize>, after: Seq<usize>, edge: OrderedMatch) -> bool {
    &&& edge.before < before.len()
    &&& edge.after < after.len()
    &&& before[edge.before as int] == after[edge.after as int]
    &&& forall|k: int|
        0 <= k < before.len() && #[trigger] before[k] == before[edge.before as int] ==> k
            == edge.before
    &&& forall|k: int|
        0 <= k < after.len() && #[trigger] after[k] == after[edge.after as int] ==> k == edge.after
}

/// Every pair of values unique to both sides, ordered by before index.
pub open spec fn lists_unique_pairs(
    candidates: Seq<OrderedMatch>,
    before: Seq<usize>,
    after: Seq<usize>,
) -> bool {
    &&& forall|i: int|
        0 <= i < candidates.len() ==> unique_pair(before, after, #[trigger] candidates[i])
    &&& forall|i: int, j: int|
        0 <= i < j < candidates.len() ==> (#[trigger] candidates[i]).before < (
        #[trigger] candidates[j]).before
    &&& forall|edge: OrderedMatch| #[trigger]
        unique_pair(before, after, edge) ==> candidates.contains(edge)
}

/// Candidates kept by the marks, in order.
pub open spec fn kept(candidates: Seq<OrderedMatch>, marks: Seq<bool>) -> Seq<OrderedMatch>
    decreases candidates.len(),
{
    if candidates.len() == 0 || marks.len() == 0 {
        Seq::empty()
    } else if marks.last() {
        kept(candidates.drop_last(), marks.drop_last()).push(candidates.last())
    } else {
        kept(candidates.drop_last(), marks.drop_last())
    }
}

/// After indices of a list of edges.
pub open spec fn after_indices(edges: Seq<OrderedMatch>) -> Seq<usize> {
    Seq::new(edges.len(), |i: int| edges[i].after)
}

/// Anchors are a longest noncrossing selection among the pairs unique to both sides.
pub open spec fn are_anchors(
    anchors: Seq<OrderedMatch>,
    before: Seq<usize>,
    after: Seq<usize>,
) -> bool {
    exists|candidates: Seq<OrderedMatch>, marks: Seq<bool>|
        #![trigger kept(candidates, marks)]
        lists_unique_pairs(candidates, before, after) && marks_longest_increasing(
            marks,
            after_indices(candidates),
        ) && anchors == kept(candidates, marks)
}

/// The alignment of one gap: best where the score table is small enough, greedy otherwise.
pub open spec fn is_gap_alignment(
    ms: Seq<OrderedMatch>,
    before: Seq<usize>,
    after: Seq<usize>,
) -> bool {
    if before.len() == 0 || after.len() == 0 {
        ms.len() == 0
    } else if before.len() * after.len() > MAX_LOCAL_ALIGNMENT_CELLS {
        ms == greedy_from(before, after, 0, 0)
    } else {
        is_best_alignment(ms, before, after)
    }
}

/// Edges moved by the two offsets.
pub open spec fn shifted(
    ms: Seq<OrderedMatch>,
    before_offset: int,
    after_offset: int,
) -> Seq<OrderedMatch> {
    Seq::new(
        ms.len(),
        |i: int|
            OrderedMatch {
                before: (ms[i].before + before_offset) as usize,
                after: (ms[i].after + after_offset) as usize,
            },
    )
}

/// The alignment up to and including the first `k` anchors.
pub open spec fn aligned_through(
    ms: Seq<OrderedMatch>,
    before: Seq<usize>,
    after: Seq<usize>,
    anchors: Seq<OrderedMatch>,
    k: int,
) -> bool
    decreases k,
{
    if k <= 0 {
        ms.len() == 0
    } else {
        exists|earlier: Seq<OrderedMatch>, gap: Seq<OrderedMatch>|
            #![trigger joined(
                earlier,
                gap,
                before_start_at(anchors, k - 1),
                after_start_at(anchors, k - 1),
            )]
            aligned_through(earlier, before, after, anchors, k - 1) && is_gap_alignment(
                gap,
                before.subrange(
                    before_start_at(anchors, k - 1),
                    anchors[k - 1].before as int,
                ),
                after.subrange(after_start_at(anchors, k - 1), anchors[k - 1].after as int),
            ) && ms == joined(
                earlier,
                gap,
                before_start_at(anchors, k - 1),
                after_start_at(anchors, k - 1),
            ).push(anchors[k - 1])
    }
}

/// Earlier edges followed by the edges of one gap at their absolute positions.
pub open spec fn joined(
    earlier: Seq<OrderedMatch>,
    gap: Seq<OrderedMatch>,
    before_start: int,
    after_start: int,
) -> Seq<OrderedMatch> {
    earlier + shifted(gap, before_start, after_start)
}

/// Anchors split both sequences; each gap between them is aligned on its own.
pub open spec fn is_anchored_alignment(
    ms: Seq<OrderedMatch>,
    before: Seq<usize>,
    after: Seq<usize>,
) -> bool {
    exists|anchors: Seq<OrderedMatch>, earlier: Seq<OrderedMatch>, gap: Seq<OrderedMatch>|
        #![trigger aligned_through(
            earlier,
            before,
            after,
            anchors,
            anchors.len() as int,
        ), gap.len()]
        are_anchors(anchors, before, after) && aligned_through(
            earlier,
            before,
            after,
            anchors,
            anchors.len() as int,
        ) && is_gap_alignment(
            gap,
            before.subrange(
                before_start_at(anchors, anchors.len() as int),
                before.len() as int,
            ),
            after.subrange(after_start_at(anchors, anchors.len() as int), after.len() as int),
        ) && ms == earlier + shifted(
            gap,
            before_start_at(anchors, anchors.len() as int),
            after_start_at(anchors, anchors.len() as int),
        )
}

/// Align one gap between anchors.
pub fn align_gap(before: &[usize], after: &[usize]) -> (matches: Vec<OrderedMatch>)
    ensures
        is_gap_alignment(matches@, before@, after@),
        is_alignment(matches@, before@, after@),
        before@ == after@ ==> is_identity(matches@, before@.len()),
{
    if before.len() == 0 || after.len() == 0 {
        return Vec::new();
    }
    proof {
        let x = before.len() as int;
        let y = after.len() as int;
        assert(0 <= x * y <= 0xffff_ffff_ffff_ffff * 0xffff_ffff_ffff_ffff) by (nonlinear_arith)
            requires
                0 <= x <= 0xffff_ffff_ffff_ffff,
                0 <= y <= 0xffff_ffff_ffff_ffff,
        ;
    }
    let cells: u128 = (before.len() as u128) * (after.len() as u128);
    if cells > MAX_LOCAL_ALIGNMENT_CELLS as u128 {
        let matches = greedy_matches(before, after);
        assert(before.len() <= usize::MAX);
        proof {
            if before@ == after@ {
                lemma_greedy_identity(before@, 0);
            }
        }
        return matches;
    }
    let matches = lcs_matches(before, after);
    proof {
        if before@ == after@ {
            lemma_best_alignment_identity(matches@, before@);
        }
    }
    matches
}

proof fn lemma_monotone_spread(ms: Seq<OrderedMatch>, k: int)
    requires
        monotone(ms),
        0 <= k < ms.len(),
    ensures
        ms[k].before >= k,
        ms[k].after >= k,
    decreases k,
{
    if k > 0 {
        lemma_monotone_spread(ms, k - 1);
        assert(ms[k - 1].before < ms[k].before);
    }
}

proof fn lemma_monotone_tail(ms: Seq<OrderedMatch>, len: int, k: int)
    requires
        monotone(ms),
        ms.len() == len,
        0 <= k < ms.len(),
        forall|i: int| 0 <= i < len ==> (#[trigger] ms[i]).before < len && ms[i].after < len,
    ensures
        ms[k].before <= k,
        ms[k].after <= k,
    decreases len - k,
{
    if k < len - 1 {
        lemma_monotone_tail(ms, len, k + 1);
        assert(ms[k].before < ms[k + 1].before);
    } else {
        assert(ms[k].before < len);
    }
}

proof fn lemma_identity_drift(len: nat) -> (ms: Seq<OrderedMatch>)
    requires
        len <= usize::MAX,
    ensures
        is_identity(ms, len),
    decreases len,
{
    Seq::new(len, |i: int| OrderedMatch { before: i as usize, after: i as usize })
}

proof fn lemma_best_alignment_identity(ms: Seq<OrderedMatch>, values: Seq<usize>)
    requires
        is_best_alignment(ms, values, values),
        values.len() <= usize::MAX,
    ensures
        is_identity(ms, values.len()),
{
    let identity = lemma_identity_drift(values.len());
    assert(is_alignment(identity, values, values));
    assert(ms.len() >= values.len());
    if ms.len() > 0 {
        lemma_monotone_spread(ms, ms.len() - 1);
        assert(ms[ms.len() - 1].before < values.len());
    }
    assert forall|i: int| 0 <= i < values.len() implies (#[trigger] ms[i]).before == i
        && ms[i].after == i by {
        lemma_monotone_spread(ms, i);
        lemma_monotone_tail(ms, values.len() as int, i);
    }
}

spec fn kept_indices(marks: Seq<bool>) -> Seq<int>
    decreases marks.len(),
{
    if marks.len() == 0 {
        Seq::empty()
    } else if marks.last() {
        kept_indices(marks.drop_last()).push(marks.len() - 1)
    } else {
        kept_indices(marks.drop_last())
    }
}

proof fn lemma_kept(candidates: Seq<OrderedMatch>, marks: Seq<bool>)
    requires
        candidates.len() == marks.len(),
    ensures
        kept(candidates, marks).len() == kept_indices(marks).len(),
        kept_indices(marks).len() <= marks.len(),
        forall|i: int|
            0 <= i < kept_indices(marks).len() ==> 0 <= (#[trigger] kept_indices(marks)[i])
                < marks.len() && marks[kept_indices(marks)[i]] && kept(candidates, marks)[i]
                == candidates[kept_indices(marks)[i]],
        forall|i: int, j: int|
            0 <= i < j < kept_indices(marks).len() ==> #[trigger] kept_indices(marks)[i]
                < #[trigger] kept_indices(marks)[j],
    decreases marks.len(),
{
    if marks.len() > 0 {
        let shorter = marks.drop_last();
        lemma_kept(candidates.drop_last(), shorter);
        assert forall|i: int| 0 <= i < kept_indices(marks).len() implies 0 <= (
        #[trigger] kept_indices(marks)[i]) < marks.len() && marks[kept_indices(marks)[i]] && kept(
            candidates,
            marks,
        )[i] == candidates[kept_indices(marks)[i]] by {
            if i < kept_indices(shorter).len() {
                assert(kept_indices(marks)[i] == kept_indices(shorter)[i]);
                assert(shorter[kept_indices(shorter)[i]]);
            }
        }
        assert forall|i: int, j: int| 0 <= i < j < kept_indices(marks).len() implies (
        #[trigger] kept_indices(marks)[i]) < (#[trigger] kept_indices(marks)[j]) by {
            assert(kept_indices(marks)[i] == kept_indices(shorter)[i]);
            if j < kept_indices(shorter).len() {
                assert(kept_indices(marks)[j] == kept_indices(shorter)[j]);
            }
        }
    }
}

proof fn lemma_anchors_monotone(
    anchors: Seq<OrderedMatch>,
    candidates: Seq<OrderedMatch>,
    marks: Seq<bool>,
    before: Seq<usize>,
    after: Seq<usize>,
)
    requires
        lists_unique_pairs(candidates, before, after),
        marks_longest_increasing(marks, after_indices(candidates)),
        anchors == kept(candidates, marks),
    ensures
        monotone(anchors),
        forall|i: int| 0 <= i < anchors.len() ==> unique_pair(before, after, #[trigger] anchors[i]),
{
    lemma_kept(candidates, marks);
    let indices = kept_indices(marks);
    let values = after_indices(candidates);
    let picked = choose|picked: Seq<int>|
        #![trigger marks_exactly(marks, picked)]
        marks_exactly(marks, picked) && is_increasing_selection(values, picked) && forall|
            other: Seq<int>,
        |
            is_increasing_selection(values, other) ==> other.len() <= picked.len();
    assert forall|i: int, j: int| 0 <= i < j < anchors.len() implies (#[trigger] anchors[i]).before
        < (#[trigger] anchors[j]).before && anchors[i].after < anchors[j].after by {
        let p = indices[i];
        let q = indices[j];
        assert(p < q);
        assert(marks[p] && marks[q]);
        let u = choose|u: int| 0 <= u < picked.len() && picked[u] == p;
        let v = choose|v: int| 0 <= v < picked.len() && picked[v] == q;
        assert(picked.contains(p) && picked.contains(q));
        assert(picked[u] == p && picked[v] == q);
        if u >= v {
            if v < u {
                assert(picked[v] < picked[u]);
            }
            assert(false);
        }
        assert(values[picked[u]] < values[picked[v]]);
        assert(candidates[p].before < candidates[q].before);
    }
    assert forall|i: int| 0 <= i < anchors.len() implies unique_pair(
        before,
        after,
        #[trigger] anchors[i],
    ) by {
        assert(unique_pair(before, after, candidates[indices[i]]));
    }
}

/// Pairs of values that occur once on both sides, ordered by before index.
fn unique_pairs(before: &[usize], after: &[usize]) -> (candidates: Vec<OrderedMatch>)
    ensures
        lists_unique_pairs(candidates@, before@, after@),
{
    let ghost b = before@;
    let ghost a = after@;
    let before_positions = Positions::new(before);
    let after_positions = Positions::new(after);
    let mut candidates: Vec<OrderedMatch> = Vec::new();
    let mut index: usize = 0;
    while index < before.len()
        invariant
            index <= before.len(),
            b == before@,
            a == after@,
            before_positions.describes(b, 0),
            after_positions.describes(a, 0),
            forall|i: int|
                0 <= i < candidates.len() ==> unique_pair(b, a, #[trigger] candidates[i])
                    && candidates[i].before < index,
            forall|i: int, j: int|
                0 <= i < j < candidates.len() ==> (#[trigger] candidates[i]).before < (
                #[trigger] candidates[j]).before,
            forall|edge: OrderedMatch|
                edge.before < index && #[trigger] unique_pair(b, a, edge) ==> candidates@.contains(
                    edge,
                ),
        decreases before.len() - index,
    {
        let value = before[index];
        let before_head = before_positions.head(value, Ghost(b));
        let after_head = after_positions.head(value, Ghost(a));
        proof {
            lemma_next_at(b, value, 0);
            lemma_next_at(b, value, index + 1);
            lemma_next_at(a, value, 0);
            if after_head < a.len() {
                lemma_next_at(a, value, after_head + 1);
            }
        }
        let ghost earlier = candidates@;
        let edge = OrderedMatch { before: index, after: after_head };
        let unique = before_head == index && before_positions.next[index] == before.len()
            && after_head < after.len() && after_positions.next[after_head] == after.len();
        proof {
            assert(unique <==> unique_pair(b, a, edge)) by {
                if unique {
                    assert forall|k: int|
                        0 <= k < b.len() && #[trigger] b[k] == value implies k == index by {
                        if k < index {
                            assert(b[k] != value);
                        } else if k > index {
                            assert(b[k] != value);
                        }
                    }
                    assert forall|k: int| 0 <= k < a.len() && #[trigger] a[k] == value implies k
                        == after_head by {
                        if k < after_head {
                            assert(a[k] != value);
                        } else if k > after_head {
                            assert(a[k] != value);
                        }
                    }
                } else if unique_pair(b, a, edge) {
                    assert(b[before_head as int] == value);
                    let following = next_at(b, value, index + 1);
                    if following < b.len() {
                        assert(b[following] == value);
                    }
                    let trailing = next_at(a, value, after_head + 1);
                    if trailing < a.len() {
                        assert(a[trailing] == value);
                    }
                }
            }
            assert forall|other: OrderedMatch| #[trigger]
                unique_pair(b, a, other) && other.before == index implies other == edge by {
                assert(a[other.after as int] == value);
                assert(after_head <= other.after);
                assert(a[after_head as int] == value);
            }
        }
        if unique {
            candidates.push(edge);
        }
        proof {
            assert forall|other: OrderedMatch|
                other.before < index + 1 && #[trigger] unique_pair(
                    b,
                    a,
                    other,
                ) implies candidates@.contains(other) by {
                if other.before < index {
                    assert(earlier.contains(other));
                    let k = choose|k: int| 0 <= k < earlier.len() && earlier[k] == other;
                    assert(candidates@[k] == other);
                } else {
                    assert(candidates@[candidates.len() - 1] == other);
                }
            }
        }
        index += 1;
    }
    candidates
}

/// Keep the marked candidates.
fn keep_marked(candidates: &[OrderedMatch], marks: &[bool]) -> (anchors: Vec<OrderedMatch>)
    requires
        candidates.len() == marks.len(),
    ensures
        anchors@ == kept(candidates@, marks@),
{
    let mut anchors: Vec<OrderedMatch> = Vec::new();
    let mut index: usize = 0;
    while index < candidates.len()
        invariant
            index <= candidates.len(),
            candidates.len() == marks.len(),
            anchors@ == kept(candidates@.take(index as int), marks@.take(index as int)),
        decreases candidates.len() - index,
    {
        proof {
            assert(candidates@.take(index + 1).drop_last() =~= candidates@.take(index as int));
            assert(marks@.take(index + 1).drop_last() =~= marks@.take(index as int));
        }
        if marks[index] {
            anchors.push(candidates[index]);
        }
        index += 1;
    }
    proof {
        assert(candidates@.take(candidates.len() as int) =~= candidates@);
        assert(marks@.take(marks.len() as int) =~= marks@);
    }
    anchors
}

/// Copy a contiguous part of a sequence.
fn copy_range(values: &[usize], start: usize, end: usize) -> (part: Vec<usize>)
    requires
        start <= end <= values.len(),
    ensures
        part@ == values@.subrange(start as int, end as int),
{
    let mut part: Vec<usize> = Vec::new();
    let mut index: usize = start;
    while index < end
        invariant
            start <= index <= end <= values.len(),
            part@ == values@.subrange(start as int, index as int),
        decreases end - index,
    {
        part.push(values[index]);
        index += 1;
    }
    part
}

/// Align one gap and append its edges at their absolute positions.
fn append_gap(
    matches: &mut Vec<OrderedMatch>,
    before: &[usize],
    after: &[usize],
    before_start: usize,
    before_end: usize,
    after_start: usize,
    after_end: usize,
) -> (gap: Ghost<Seq<OrderedMatch>>)
    requires
        before_start <= before_end <= before.len(),
        after_start <= after_end <= after.len(),
        is_alignment(old(matches)@, before@, after@),
        forall|k: int|
            0 <= k < old(matches).len() ==> (#[trigger] old(matches)@[k]).before < before_start
                && old(matches)@[k].after < after_start,
    ensures
        is_gap_alignment(
            gap@,
            before@.subrange(before_start as int, before_end as int),
            after@.subrange(after_start as int, after_end as int),
        ),
        final(matches)@ == old(matches)@ + shifted(gap@, before_start as int, after_start as int),
        is_alignment(final(matches)@, before@, after@),
        forall|k: int|
            0 <= k < final(matches).len() ==> (#[trigger] final(matches)@[k]).before < before_end
                && final(matches)@[k].after < after_end || k < old(matches).len(),
        before@ == after@ && before_start == after_start && before_end == after_end && is_identity(
            old(matches)@,
            before_start as nat,
        ) ==> is_identity(final(matches)@, before_end as nat),
{
    let left = copy_range(before, before_start, before_end);
    let right = copy_range(after, after_start, after_end);
    let gap = align_gap(&left, &right);
    let ghost earlier = matches@;
    let mut index: usize = 0;
    while index < gap.len()
        invariant
            index <= gap.len(),
            left@ == before@.subrange(before_start as int, before_end as int),
            right@ == after@.subrange(after_start as int, after_end as int),
            before_start <= before_end <= before.len(),
            after_start <= after_end <= after.len(),
            is_alignment(gap@, left@, right@),
            matches@ == earlier + shifted(
                gap@.take(index as int),
                before_start as int,
                after_start as int,
            ),
        decreases gap.len() - index,
    {
        let edge = gap[index];
        matches.push(
            OrderedMatch { before: before_start + edge.before, after: after_start + edge.after },
        );
        index += 1;
        proof {
            assert(matches@ =~= earlier + shifted(
                gap@.take(index as int),
                before_start as int,
                after_start as int,
            ));
        }
    }
    proof {
        assert(gap@.take(gap.len() as int) =~= gap@);
        let whole = matches@;
        let moved = shifted(gap@, before_start as int, after_start as int);
        assert forall|i: int| 0 <= i < whole.len() implies (#[trigger] whole[i]).before
            < before.len() && whole[i].after < after.len() && before@[whole[i].before as int]
            == after@[whole[i].after as int] && (i >= earlier.len() ==> before_start
            <= whole[i].before < before_end && after_start <= whole[i].after < after_end) by {
            if i < earlier.len() {
                assert(whole[i] == earlier[i]);
            } else {
                let edge = gap@[i - earlier.len()];
                assert(whole[i] == moved[i - earlier.len()]);
                assert(left@[edge.before as int] == right@[edge.after as int]);
            }
        }
        assert forall|i: int, j: int| 0 <= i < j < whole.len() implies (#[trigger] whole[i]).before
            < (#[trigger] whole[j]).before && whole[i].after < whole[j].after by {
            if j < earlier.len() {
                assert(whole[i] == earlier[i] && whole[j] == earlier[j]);
            } else if i < earlier.len() {
                assert(whole[i] == earlier[i]);
            } else {
                assert(gap@[i - earlier.len()].before < gap@[j - earlier.len()].before);
            }
        }
        if before@ == after@ && before_start == after_start && before_end == after_end
            && is_identity(earlier, before_start as nat) {
            assert(left@ =~= right@);
            assert forall|i: int| 0 <= i < before_end implies (#[trigger] whole[i]).before == i
                && whole[i].after == i by {
                if i < earlier.len() {
                    assert(whole[i] == earlier[i]);
                } else {
                    assert(gap@[i - earlier.len()].before == i - earlier.len());
                }
            }
        }
    }
    Ghost(gap@)
}

proof fn lemma_aligned_step(
    earlier: Seq<OrderedMatch>,
    gap: Seq<OrderedMatch>,
    whole: Seq<OrderedMatch>,
    before: Seq<usize>,
    after: Seq<usize>,
    anchors: Seq<OrderedMatch>,
    k: int,
)
    requires
        0 <= k < anchors.len(),
        aligned_through(earlier, before, after, anchors, k),
        is_gap_alignment(
            gap,
            before.subrange(before_start_at(anchors, k), anchors[k].before as int),
            after.subrange(after_start_at(anchors, k), anchors[k].after as int),
        ),
        whole == (earlier + shifted(
            gap,
            before_start_at(anchors, k),
            after_start_at(anchors, k),
        )).push(anchors[k]),
    ensures
        aligned_through(whole, before, after, anchors, k + 1),
{
    let next = k + 1;
    assert(next - 1 == k);
    assert(whole == joined(
        earlier,
        gap,
        before_start_at(anchors, next - 1),
        after_start_at(anchors, next - 1),
    ).push(anchors[next - 1]));
}

/// Match equal values once per occurrence while preserving order in both sequences.
/// Noncrossing unique values anchor the alignment. Small gaps use a longest common
/// subsequence; large gaps use greedy matching to cap memory use.
pub fn ordered_matches(before: &[usize], after: &[usize]) -> (matches: Vec<OrderedMatch>)
    ensures
        is_alignment(matches@, before@, after@),
        is_anchored_alignment(matches@, before@, after@),
        before@ == after@ ==> is_identity(matches@, before@.len()),
{
    let ghost b = before@;
    let ghost a = after@;
    let candidates = unique_pairs(before, after);
    let mut candidate_after: Vec<usize> = Vec::new();
    let mut index: usize = 0;
    while index < candidates.len()
        invariant
            index <= candidates.len(),
            candidate_after@ == after_indices(candidates@.take(index as int)),
        decreases candidates.len() - index,
    {
        candidate_after.push(candidates[index].after);
        index += 1;
        proof {
            assert(candidate_after@ =~= after_indices(candidates@.take(index as int)));
        }
    }
    proof {
        assert(candidates@.take(candidates.len() as int) =~= candidates@);
    }
    let stable = increasing_subsequence_members(&candidate_after);
    let anchors = keep_marked(&candidates, &stable);
    proof {
        lemma_anchors_monotone(anchors@, candidates@, stable@, b, a);
        assert(are_anchors(anchors@, b, a)) by {
            assert(kept(candidates@, stable@) == anchors@);
        }
    }
    let mut matches: Vec<OrderedMatch> = Vec::new();
    let mut before_start: usize = 0;
    let mut after_start: usize = 0;
    let mut position: usize = 0;
    while position < anchors.len()
        invariant
            position <= anchors.len(),
            b == before@,
            a == after@,
            monotone(anchors@),
            forall|i: int| 0 <= i < anchors.len() ==> unique_pair(b, a, #[trigger] anchors[i]),
            before_start == before_start_at(anchors@, position as int),
            after_start == after_start_at(anchors@, position as int),
            before_start <= b.len(),
            after_start <= a.len(),
            is_alignment(matches@, b, a),
            forall|k: int|
                0 <= k < matches.len() ==> (#[trigger] matches[k]).before < before_start
                    && matches[k].after < after_start,
            aligned_through(matches@, b, a, anchors@, position as int),
            b == a ==> before_start == after_start && is_identity(matches@, before_start as nat),
        decreases anchors.len() - position,
    {
        let anchor = anchors[position];
        proof {
            assert(unique_pair(b, a, anchors@[position as int]));
            if position > 0 {
                assert(anchors@[position - 1].before < anchors@[position as int].before);
            }
            if b == a {
                assert(anchor.before == anchor.after);
            }
        }
        let ghost earlier = matches@;
        let gap = append_gap(
            &mut matches,
            before,
            after,
            before_start,
            anchor.before,
            after_start,
            anchor.after,
        );
        let ghost with_gap = matches@;
        matches.push(anchor);
        proof {
            let whole = matches@;
            assert(before.len() <= usize::MAX && after.len() <= usize::MAX);
            lemma_aligned_step(earlier, gap@, whole, b, a, anchors@, position as int);
            assert forall|k: int| 0 <= k < with_gap.len() implies (#[trigger] with_gap[k]).before
                < anchor.before && with_gap[k].after < anchor.after by {
                if k < earlier.len() {
                    assert(with_gap[k] == earlier[k]);
                }
            }
            assert forall|i: int, j: int| 0 <= i < j < whole.len() implies (
            #[trigger] whole[i]).before < (#[trigger] whole[j]).before && whole[i].after
                < whole[j].after by {
                if j < with_gap.len() {
                    assert(with_gap[i].before < with_gap[j].before);
                } else {
                    assert(whole[i] == with_gap[i]);
                }
            }
            assert forall|k: int| 0 <= k < whole.len() implies (#[trigger] whole[k]).before
                < anchor.before + 1 && whole[k].after < anchor.after + 1 by {
                if k < with_gap.len() {
                    assert(whole[k] == with_gap[k]);
                }
            }
        }
        before_start = anchor.before + 1;
        after_start = anchor.after + 1;
        position += 1;
    }
    let ghost earlier = matches@;
    let gap = append_gap(
        &mut matches,
        before,
        after,
        before_start,
        before.len(),
        after_start,
        after.len(),
    );
    proof {
        assert(aligned_through(earlier, b, a, anchors@, anchors@.len() as int));
        assert(gap@.len() >= 0);
    }
    matches
}

/// Some edge shares an end with the pair or crosses it.
pub open spec fn is_blocked(ms: Seq<OrderedMatch>, x: int, y: int) -> bool {
    exists|k: int|
        0 <= k < ms.len() && !((#[trigger] ms[k]).before < x && ms[k].after < y) && !(ms[k].before
            > x && ms[k].after > y)
}

proof fn lemma_greedy_blocks(
    before: Seq<usize>,
    after: Seq<usize>,
    index: int,
    floor: int,
    x: int,
    y: int,
)
    requires
        0 <= index <= x < before.len() <= usize::MAX,
        0 <= floor <= y < after.len() <= usize::MAX,
        before[x] == after[y],
    ensures
        is_blocked(greedy_from(before, after, index, floor), x, y),
    decreases before.len() - index,
{
    let whole = greedy_from(before, after, index, floor);
    let found = next_at(after, before[index], floor);
    lemma_next_at(after, before[index], floor);
    if found < after.len() {
        let rest = greedy_from(before, after, index + 1, found + 1);
        assert(whole[0] == OrderedMatch { before: index as usize, after: found as usize });
        if index < x && found < y {
            lemma_greedy_blocks(before, after, index + 1, found + 1, x, y);
            let k = choose|k: int|
                0 <= k < rest.len() && !((#[trigger] rest[k]).before < x && rest[k].after < y) && !(
                rest[k].before > x && rest[k].after > y);
            assert(whole[k + 1] == rest[k]);
        }
    } else {
        if index == x {
            assert(after[y] != before[index]);
        }
        lemma_greedy_blocks(before, after, index + 1, floor, x, y);
    }
}

/// Where a pair that nothing blocks fits among the edges.
proof fn lemma_unblocked_split(ms: Seq<OrderedMatch>, x: int, y: int) -> (p: int)
    requires
        monotone(ms),
        !is_blocked(ms, x, y),
    ensures
        0 <= p <= ms.len(),
        forall|k: int| 0 <= k < p ==> (#[trigger] ms[k]).before < x && ms[k].after < y,
        forall|k: int| p <= k < ms.len() ==> (#[trigger] ms[k]).before > x && ms[k].after > y,
    decreases ms.len(),
{
    if ms.len() == 0 {
        0
    } else if ms.last().before < x {
        assert(ms[ms.len() - 1] == ms.last());
        assert forall|k: int| 0 <= k < ms.len() implies (#[trigger] ms[k]).before < x && ms[k].after
            < y by {
            if k < ms.len() - 1 {
                assert(ms[k].before < ms[ms.len() - 1].before);
            }
        }
        ms.len() as int
    } else {
        let shorter = ms.drop_last();
        assert(ms[ms.len() - 1] == ms.last());
        assert(!is_blocked(shorter, x, y)) by {
            if is_blocked(shorter, x, y) {
                let k = choose|k: int|
                    0 <= k < shorter.len() && !((#[trigger] shorter[k]).before < x
                        && shorter[k].after < y) && !(shorter[k].before > x && shorter[k].after
                        > y);
                assert(ms[k] == shorter[k]);
            }
        }
        let p = lemma_unblocked_split(shorter, x, y);
        assert forall|k: int| 0 <= k < p implies (#[trigger] ms[k]).before < x && ms[k].after
            < y by {
            assert(ms[k] == shorter[k]);
        }
        assert forall|k: int| p <= k < ms.len() implies (#[trigger] ms[k]).before > x && ms[k].after
            > y by {
            if k < shorter.len() {
                assert(ms[k] == shorter[k]);
            }
        }
        p
    }
}

proof fn lemma_best_blocks(
    ms: Seq<OrderedMatch>,
    before: Seq<usize>,
    after: Seq<usize>,
    x: int,
    y: int,
)
    requires
        is_best_alignment(ms, before, after),
        0 <= x < before.len() <= usize::MAX,
        0 <= y < after.len() <= usize::MAX,
        before[x] == after[y],
    ensures
        is_blocked(ms, x, y),
{
    if !is_blocked(ms, x, y) {
        let p = lemma_unblocked_split(ms, x, y);
        let edge = OrderedMatch { before: x as usize, after: y as usize };
        let other = ms.insert(p, edge);
        assert forall|i: int| 0 <= i < other.len() implies (#[trigger] other[i]).before
            < before.len() && other[i].after < after.len() && before[other[i].before as int]
            == after[other[i].after as int] by {
            if i < p {
                assert(other[i] == ms[i]);
            } else if i > p {
                assert(other[i] == ms[i - 1]);
            }
        }
        assert forall|i: int, j: int| 0 <= i < j < other.len() implies (#[trigger] other[i]).before
            < (#[trigger] other[j]).before && other[i].after < other[j].after by {
            if j < p {
                assert(other[i] == ms[i] && other[j] == ms[j]);
            } else if j == p {
                assert(other[i] == ms[i]);
            } else {
                assert(other[j] == ms[j - 1]);
                if i < p {
                    assert(other[i] == ms[i]);
                } else if i > p {
                    assert(other[i] == ms[i - 1]);
                }
            }
        }
        assert(is_alignment(other, before, after));
        assert(false);
    }
}

/// A gap of the anchored alignment blocks every equal pair inside it.
proof fn lemma_gap_blocks(
    gap: Seq<OrderedMatch>,
    before: Seq<usize>,
    after: Seq<usize>,
    x: int,
    y: int,
)
    requires
        is_gap_alignment(gap, before, after),
        0 <= x < before.len() <= usize::MAX,
        0 <= y < after.len() <= usize::MAX,
        before[x] == after[y],
    ensures
        is_blocked(gap, x, y),
{
    if before.len() * after.len() > MAX_LOCAL_ALIGNMENT_CELLS {
        lemma_greedy_blocks(before, after, 0, 0, x, y);
    } else {
        lemma_best_blocks(gap, before, after, x, y);
    }
}

/// The edges of a gap at their absolute positions block the pair at its absolute position.
proof fn lemma_joined_blocks(
    earlier: Seq<OrderedMatch>,
    gap: Seq<OrderedMatch>,
    before: Seq<usize>,
    after: Seq<usize>,
    before_span: (int, int),
    after_span: (int, int),
    x: int,
    y: int,
)
    requires
        0 <= before_span.0 <= x < before_span.1 <= before.len() <= usize::MAX,
        0 <= after_span.0 <= y < after_span.1 <= after.len() <= usize::MAX,
        is_gap_alignment(
            gap,
            before.subrange(before_span.0, before_span.1),
            after.subrange(after_span.0, after_span.1),
        ),
        before[x] == after[y],
    ensures
        is_blocked(joined(earlier, gap, before_span.0, after_span.0), x, y),
{
    let left = before.subrange(before_span.0, before_span.1);
    let right = after.subrange(after_span.0, after_span.1);
    lemma_gap_blocks(gap, left, right, x - before_span.0, y - after_span.0);
    let whole = joined(earlier, gap, before_span.0, after_span.0);
    let k = choose|k: int|
        0 <= k < gap.len() && !((#[trigger] gap[k]).before < x - before_span.0 && gap[k].after < y
            - after_span.0) && !(gap[k].before > x - before_span.0 && gap[k].after > y
            - after_span.0);
    assert(gap[k].before < left.len() && gap[k].after < right.len()) by {
        if left.len() * right.len() > MAX_LOCAL_ALIGNMENT_CELLS {
            lemma_greedy_is_alignment(left, right, 0, 0);
        }
    }
    assert(whole[earlier.len() + k] == shifted(gap, before_span.0, after_span.0)[k]);
    assert(whole[earlier.len() + k].before == gap[k].before + before_span.0);
    assert(whole[earlier.len() + k].after == gap[k].after + after_span.0);
}

proof fn lemma_through_blocks(
    ms: Seq<OrderedMatch>,
    before: Seq<usize>,
    after: Seq<usize>,
    anchors: Seq<OrderedMatch>,
    count: int,
    x: int,
    y: int,
)
    requires
        0 <= count <= anchors.len(),
        monotone(anchors),
        pairs_equal(anchors, before, after),
        aligned_through(ms, before, after, anchors, count),
        before.len() <= usize::MAX,
        after.len() <= usize::MAX,
        0 <= x < before.len(),
        0 <= y < after.len(),
        before[x] == after[y],
        x < before_start_at(anchors, count) || y < after_start_at(anchors, count),
    ensures
        is_blocked(ms, x, y),
    decreases count,
{
    if count > 0 {
        let anchor = anchors[count - 1];
        let (earlier, gap) = choose|earlier: Seq<OrderedMatch>, gap: Seq<OrderedMatch>|
            #![trigger joined(
                earlier,
                gap,
                before_start_at(anchors, count - 1),
                after_start_at(anchors, count - 1),
            )]
            aligned_through(earlier, before, after, anchors, count - 1) && is_gap_alignment(
                gap,
                before.subrange(
                    before_start_at(anchors, count - 1),
                    anchors[count - 1].before as int,
                ),
                after.subrange(after_start_at(anchors, count - 1), anchors[count - 1].after as int),
            ) && ms == joined(
                earlier,
                gap,
                before_start_at(anchors, count - 1),
                after_start_at(anchors, count - 1),
            ).push(anchors[count - 1]);
        let start = before_start_at(anchors, count - 1);
        let floor = after_start_at(anchors, count - 1);
        let part = joined(earlier, gap, start, floor);
        assert(ms == part.push(anchor));
        assert(ms[ms.len() - 1] == anchor);
        if anchor.before > x && anchor.after > y {
            if x < start || y < floor {
                lemma_through_blocks(earlier, before, after, anchors, count - 1, x, y);
                let k = choose|k: int|
                    0 <= k < earlier.len() && !((#[trigger] earlier[k]).before < x
                        && earlier[k].after < y) && !(earlier[k].before > x && earlier[k].after
                        > y);
                assert(ms[k] == earlier[k]);
            } else {
                assert(start <= anchor.before && floor <= anchor.after);
                lemma_joined_blocks(
                    earlier,
                    gap,
                    before,
                    after,
                    (start, anchor.before as int),
                    (floor, anchor.after as int),
                    x,
                    y,
                );
                let k = choose|k: int|
                    0 <= k < part.len() && !((#[trigger] part[k]).before < x && part[k].after < y)
                        && !(part[k].before > x && part[k].after > y);
                assert(ms[k] == part[k]);
            }
        }
    }
}

/// No equal pair can be added to an anchored alignment: each one that it leaves out shares an
/// end with one of its edges or crosses one.
pub proof fn law_anchored_alignment_is_maximal(
    ms: Seq<OrderedMatch>,
    before: Seq<usize>,
    after: Seq<usize>,
    x: int,
    y: int,
)
    requires
        is_anchored_alignment(ms, before, after),
        before.len() <= usize::MAX,
        after.len() <= usize::MAX,
        0 <= x < before.len(),
        0 <= y < after.len(),
        before[x] == after[y],
    ensures
        is_blocked(ms, x, y),
{
    let (anchors, earlier, gap) = choose|
        anchors: Seq<OrderedMatch>,
        earlier: Seq<OrderedMatch>,
        gap: Seq<OrderedMatch>,
    |
        #![trigger aligned_through(
            earlier,
            before,
            after,
            anchors,
            anchors.len() as int,
        ), gap.len()]
        are_anchors(anchors, before, after) && aligned_through(
            earlier,
            before,
            after,
            anchors,
            anchors.len() as int,
        ) && is_gap_alignment(
            gap,
            before.subrange(
                before_start_at(anchors, anchors.len() as int),
                before.len() as int,
            ),
            after.subrange(after_start_at(anchors, anchors.len() as int), after.len() as int),
        ) && ms == earlier + shifted(
            gap,
            before_start_at(anchors, anchors.len() as int),
            after_start_at(anchors, anchors.len() as int),
        );
    let (candidates, marks) = choose|candidates: Seq<OrderedMatch>, marks: Seq<bool>|
        #![trigger kept(candidates, marks)]
        lists_unique_pairs(candidates, before, after) && marks_longest_increasing(
            marks,
            after_indices(candidates),
        ) && anchors == kept(candidates, marks);
    lemma_anchors_monotone(anchors, candidates, marks, before, after);
    assert(pairs_equal(anchors, before, after)) by {
        assert forall|i: int| 0 <= i < anchors.len() implies (#[trigger] anchors[i]).before
            < before.len() && anchors[i].after < after.len() && before[anchors[i].before as int]
            == after[anchors[i].after as int] by {
            assert(unique_pair(before, after, anchors[i]));
        }
    }
    let start = before_start_at(anchors, anchors.len() as int);
    let floor = after_start_at(anchors, anchors.len() as int);
    if x < start || y < floor {
        lemma_through_blocks(earlier, before, after, anchors, anchors.len() as int, x, y);
        let k = choose|k: int|
            0 <= k < earlier.len() && !((#[trigger] earlier[k]).before < x && earlier[k].after < y)
                && !(earlier[k].before > x && earlier[k].after > y);
        assert(ms[k] == earlier[k]);
    } else {
        lemma_joined_blocks(
            earlier,
            gap,
            before,
            after,
            (start, before.len() as int),
            (floor, after.len() as int),
            x,
            y,
        );
        assert(ms == joined(earlier, gap, start, floor));
    }
}

/// No equal pair can be added to a chain of nearest pairs.
pub proof fn law_locality_chain_is_maximal(
    ms: Seq<OrderedMatch>,
    before: Seq<usize>,
    after: Seq<usize>,
    x: int,
    y: int,
)
    requires
        is_locality_chain(ms, before, after),
        before.len() <= usize::MAX,
        after.len() <= usize::MAX,
        0 <= x < before.len(),
        0 <= y < after.len(),
        before[x] == after[y],
    ensures
        is_blocked(ms, x, y),
{
    if !is_blocked(ms, x, y) {
        law_locality_chain_is_alignment(ms, before, after);
        let p = lemma_unblocked_split(ms, x, y);
        if p > 0 {
            assert(ms[p - 1].before < x && ms[p - 1].after < y);
        }
        assert(equal_at(before, after, before_start_at(ms, p), after_start_at(ms, p), x, y));
        if p < ms.len() {
            assert(extends_chain(ms, before, after, p));
            assert(ms[p].before > x && ms[p].after > y);
        }
        assert(false);
    }
}

/// Some edge ends at `x` on the before side or at `y` on the after side.
pub open spec fn has_end(ms: Seq<OrderedMatch>, x: int, y: int) -> bool {
    exists|k: int| 0 <= k < ms.len() && ((#[trigger] ms[k]).before == x || ms[k].after == y)
}

/// The occurrence with the given number, where a later one exists.
proof fn lemma_occurrence_exists(values: Seq<usize>, value: usize, number: nat, at: int) -> (found:
    int)
    requires
        0 <= at < values.len(),
        values[at] == value,
        number <= occurrences(values, value, at),
    ensures
        0 <= found <= at,
        values[found] == value,
        occurrences(values, value, found) == number,
    decreases at,
{
    if number == occurrences(values, value, at) {
        at
    } else {
        lemma_last_occurrence(values, value, at, number)
    }
}

proof fn lemma_last_occurrence(values: Seq<usize>, value: usize, end: int, number: nat) -> (found: int)
    requires
        0 <= end <= values.len(),
        number < occurrences(values, value, end),
    ensures
        0 <= found < end,
        values[found] == value,
        occurrences(values, value, found) == number,
    decreases end,
{
    if values[end - 1] == value && occurrences(values, value, end - 1) == number {
        end - 1
    } else {
        lemma_last_occurrence(values, value, end - 1, number)
    }
}

/// Two equal values are never both left over by an occurrence matching.
pub proof fn law_occurrence_matching_is_complete(
    ms: Seq<OrderedMatch>,
    before: Seq<usize>,
    after: Seq<usize>,
    x: int,
    y: int,
)
    requires
        is_occurrence_matching(ms, before, after),
        before.len() <= usize::MAX,
        after.len() <= usize::MAX,
        0 <= x < before.len(),
        0 <= y < after.len(),
        before[x] == after[y],
    ensures
        has_end(ms, x, y),
{
    let value = before[x];
    let left = occurrences(before, value, x);
    let right = occurrences(after, value, y);
    if left <= right {
        let found = lemma_occurrence_exists(after, value, left, y);
        assert(same_occurrence(before, after, x, found));
        let edge = OrderedMatch { before: x as usize, after: found as usize };
        let k = choose|k: int| 0 <= k < ms.len() && ms[k] == edge;
        assert(ms[k].before == x);
    } else {
        let found = lemma_occurrence_exists(before, value, right, x);
        assert(same_occurrence(before, after, found, y));
        let edge = OrderedMatch { before: found as usize, after: y as usize };
        let k = choose|k: int| 0 <= k < ms.len() && ms[k] == edge;
        assert(ms[k].after == y);
    }
}

} // verus!

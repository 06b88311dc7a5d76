//! Counting what rows are shown as, so that no step shows a row twice or loses one.

use crate::context::{ranges_apart, selects};
use crate::plan::anchored::AnchoredChange;
use crate::plan::excerpts::Excerpt;
use crate::plan::rows::{numbers_rows, shows_row, side_rows, UnitRow};
use crate::review::{RefinedHunk, SourceChange, SourceEdit};
use crate::span::Span;
use vstd::prelude::*;

verus! {

/// What a row of the review does to one line. Plain context and folded lines do nothing.
pub enum Claim {
    /// An old line is replaced or removed.
    Removed(usize),
    /// A current line replaces something or is added.
    Added(usize),
    /// A current line is edited in place.
    Edited(usize),
    /// A current line changes its layout.
    Reflowed(usize),
    /// A current line has moved.
    Moved(usize),
    /// An old line is part of a wiring edit.
    Unwired(usize),
    /// A current line is part of a wiring edit.
    Wired(usize),
}

/// Sum of the weights of all items.
pub open spec fn total<T>(items: Seq<T>, weight: spec_fn(T) -> nat) -> nat
    decreases items.len(),
{
    if items.len() == 0 {
        0
    } else {
        total(items.drop_last(), weight) + weight(items.last())
    }
}

/// One more item adds its weight.
pub proof fn lemma_total_push<T>(items: Seq<T>, item: T, weight: spec_fn(T) -> nat)
    ensures
        total(items.push(item), weight) == total(items, weight) + weight(item),
{
    assert(items.push(item).drop_last() =~= items);
}

/// Two lists weigh what their join weighs.
pub proof fn lemma_total_join<T>(front: Seq<T>, back: Seq<T>, weight: spec_fn(T) -> nat)
    ensures
        total(front + back, weight) == total(front, weight) + total(back, weight),
    decreases back.len(),
{
    if back.len() == 0 {
        assert(front + back =~= front);
    } else {
        lemma_total_join(front, back.drop_last(), weight);
        assert((front + back).drop_last() =~= front + back.drop_last());
    }
}

/// Items without weight weigh nothing.
pub proof fn lemma_total_nothing<T>(items: Seq<T>, weight: spec_fn(T) -> nat)
    requires
        forall|k: int| 0 <= k < items.len() ==> weight(#[trigger] items[k]) == 0,
    ensures
        total(items, weight) == 0,
    decreases items.len(),
{
    if items.len() > 0 {
        assert(weight(items[items.len() - 1]) == 0);
        assert forall|k: int| 0 <= k < items.drop_last().len() implies weight(
            #[trigger] items.drop_last()[k],
        ) == 0 by {
            assert(weight(items[k]) == 0);
        }
        lemma_total_nothing(items.drop_last(), weight);
    }
}

/// Every item weighs at most what all weigh.
pub proof fn lemma_total_holds<T>(items: Seq<T>, weight: spec_fn(T) -> nat, at: int)
    requires
        0 <= at < items.len(),
    ensures
        weight(items[at]) <= total(items, weight),
    decreases items.len(),
{
    if at < items.len() - 1 {
        lemma_total_holds(items.drop_last(), weight, at);
    }
}

/// Two items weigh at most what all weigh.
pub proof fn lemma_total_holds_two<T>(items: Seq<T>, weight: spec_fn(T) -> nat, left: int, right: int)
    requires
        0 <= left < right < items.len(),
    ensures
        weight(items[left]) + weight(items[right]) <= total(items, weight),
    decreases items.len(),
{
    if right < items.len() - 1 {
        lemma_total_holds_two(items.drop_last(), weight, left, right);
    } else {
        lemma_total_holds(items.drop_last(), weight, left);
    }
}

/// Taking an item out takes its weight.
proof fn lemma_total_remove<T>(items: Seq<T>, weight: spec_fn(T) -> nat, at: int)
    requires
        0 <= at < items.len(),
    ensures
        total(items, weight) == total(items.remove(at), weight) + weight(items[at]),
    decreases items.len(),
{
    let last = items.len() - 1;
    if at == last {
        assert(items.remove(at) =~= items.drop_last());
    } else {
        lemma_total_remove(items.drop_last(), weight, at);
        assert(items.remove(at).drop_last() =~= items.drop_last().remove(at));
    }
}

/// The order of the items does not matter.
pub proof fn lemma_total_permuted<T>(left: Seq<T>, right: Seq<T>, weight: spec_fn(T) -> nat)
    requires
        left.to_multiset() == right.to_multiset(),
    ensures
        total(left, weight) == total(right, weight),
    decreases left.len(),
{
    broadcast use vstd::seq_lib::group_to_multiset_ensures;

    assert(left.to_multiset().len() == left.len());
    assert(right.to_multiset().len() == right.len());
    if left.len() > 0 {
        let item = left.last();
        assert(left.contains(left[left.len() - 1]));
        assert(right.to_multiset().count(item) > 0);
        assert(right.contains(item));
        let at = choose|at: int| 0 <= at < right.len() && right[at] == item;
        let rest = right.remove(at);
        assert(left =~= left.drop_last().push(item));
        left.drop_last().to_multiset_ensures();
        assert(left.to_multiset() =~= left.drop_last().to_multiset().insert(item));
        right.to_multiset_ensures();
        assert(rest.to_multiset() =~= right.to_multiset().remove(item));
        assert(left.drop_last().to_multiset() =~= rest.to_multiset());
        lemma_total_permuted(left.drop_last(), rest, weight);
        lemma_total_remove(right, weight, at);
    }
}

/// Edits of the line.
pub open spec fn numbered(edits: Seq<SourceEdit>, line: usize) -> nat
    decreases edits.len(),
{
    if edits.len() == 0 {
        0
    } else {
        numbered(edits.drop_last(), line) + if edits.last().number == line {
            1nat
        } else {
            0nat
        }
    }
}

/// Joined edits number what both number.
pub proof fn lemma_numbered_join(front: Seq<SourceEdit>, back: Seq<SourceEdit>, line: usize)
    ensures
        numbered(front + back, line) == numbered(front, line) + numbered(back, line),
    decreases back.len(),
{
    if back.len() == 0 {
        assert(front + back =~= front);
    } else {
        lemma_numbered_join(front, back.drop_last(), line);
        assert((front + back).drop_last() =~= front + back.drop_last());
    }
}

/// Edits of the first rows of a range number each of them once.
proof fn lemma_numbered_rows(edits: Seq<SourceEdit>, rows: Span, line: usize, count: int)
    requires
        0 <= count <= edits.len(),
        numbers_rows(edits, rows),
    ensures
        numbered(edits.take(count), line) == if rows.start <= line - 1 < rows.start + count {
            1nat
        } else {
            0nat
        },
    decreases count,
{
    if count > 0 {
        lemma_numbered_rows(edits, rows, line, count - 1);
        assert(edits.take(count).drop_last() =~= edits.take(count - 1));
        assert(edits.take(count).last() == edits[count - 1]);
    }
}

/// Edits that number a range number each of its rows once, and nothing else.
pub proof fn lemma_numbered_range(edits: Seq<SourceEdit>, rows: Span, line: usize)
    requires
        numbers_rows(edits, rows),
        rows.start <= rows.end,
    ensures
        numbered(edits, line) == if rows.has(line - 1) {
            1nat
        } else {
            0nat
        },
{
    lemma_numbered_rows(edits, rows, line, edits.len() as int);
    assert(edits.take(edits.len() as int) =~= edits);
}

/// How often the change makes the claim.
pub open spec fn claims_in(change: SourceChange, claim: Claim) -> nat {
    match (change, claim) {
        (SourceChange::Replace { before, after, line_endings }, Claim::Removed(line)) => numbered(
            before@,
            line,
        ),
        (SourceChange::Replace { before, after, line_endings }, Claim::Added(line)) => numbered(
            after@,
            line,
        ),
        (SourceChange::Edited(edit), Claim::Edited(line)) => if edit.number == line {
            1
        } else {
            0
        },
        (SourceChange::Reflow(number), Claim::Reflowed(line)) => if number == line {
            1
        } else {
            0
        },
        (SourceChange::Move(block), Claim::Moved(line)) => if block.after.has(line as int) {
            1
        } else {
            0
        },
        (SourceChange::Compact(compact), Claim::Unwired(line)) => if compact.before_line == Some(
            line,
        ) {
            1
        } else {
            0
        },
        (SourceChange::Compact(compact), Claim::Wired(line)) => if compact.after_line == Some(line) {
            1
        } else {
            0
        },
        _ => 0,
    }
}

/// How often a change makes the claim.
pub open spec fn change_weight(claim: Claim) -> spec_fn(SourceChange) -> nat {
    |change: SourceChange| claims_in(change, claim)
}

/// How often the changes make the claim.
pub open spec fn tally(changes: Seq<SourceChange>, claim: Claim) -> nat {
    total(changes, change_weight(claim))
}

/// One more change.
pub proof fn lemma_tally_push(changes: Seq<SourceChange>, change: SourceChange, claim: Claim)
    ensures
        tally(changes.push(change), claim) == tally(changes, claim) + claims_in(change, claim),
{
    lemma_total_push(changes, change, change_weight(claim));
}

/// Context and folded lines claim nothing.
pub proof fn lemma_tally_plain(changes: Seq<SourceChange>, claim: Claim)
    requires
        forall|k: int|
            0 <= k < changes.len() ==> (#[trigger] changes[k]) is Context || changes[k] is Elision,
    ensures
        tally(changes, claim) == 0,
{
    lemma_total_nothing(changes, change_weight(claim));
}

/// Sum of the weights of a range of positions.
pub open spec fn run_total(weight: spec_fn(int) -> nat, start: int, end: int) -> nat
    decreases end - start,
{
    if end <= start {
        0
    } else {
        run_total(weight, start, end - 1) + weight(end - 1)
    }
}

/// Sum of the weights of the first positions, as far as a range holds them.
pub open spec fn picked_total(weight: spec_fn(int) -> nat, ranges: Seq<Span>, end: int) -> nat
    decreases end,
{
    if end <= 0 {
        0
    } else {
        picked_total(weight, ranges, end - 1) + if selects(ranges, end - 1) {
            weight(end - 1)
        } else {
            0
        }
    }
}

/// Positions that no range holds add nothing.
pub proof fn lemma_picked_gap(weight: spec_fn(int) -> nat, ranges: Seq<Span>, start: int, end: int)
    requires
        0 <= start <= end,
        forall|i: int| start <= i < end ==> !#[trigger] selects(ranges, i),
    ensures
        picked_total(weight, ranges, end) == picked_total(weight, ranges, start),
    decreases end - start,
{
    if start < end {
        lemma_picked_gap(weight, ranges, start, end - 1);
        assert(!selects(ranges, end - 1));
    }
}

/// Where ranges hold a run, and besides it nothing of weight, they weigh what the run weighs.
pub proof fn lemma_picked_run(
    weight: spec_fn(int) -> nat,
    ranges: Seq<Span>,
    run: Span,
    count: int,
    end: int,
)
    requires
        run.start < run.end <= count,
        0 <= end <= count,
        forall|i: int| run.has(i) ==> #[trigger] selects(ranges, i),
        forall|i: int|
            0 <= i < count && !run.has(i) && #[trigger] selects(ranges, i) ==> weight(i) == 0,
    ensures
        picked_total(weight, ranges, end) == run_total(
            weight,
            run.start as int,
            if end <= run.end {
                end
            } else {
                run.end as int
            },
        ),
    decreases end,
{
    if end > 0 {
        lemma_picked_run(weight, ranges, run, count, end - 1);
        assert(selects(ranges, end - 1) || !selects(ranges, end - 1));
        if run.has(end - 1) {
            assert(selects(ranges, end - 1));
        }
    }
}

/// Two runs weigh what the joined run weighs.
pub proof fn lemma_run_join(weight: spec_fn(int) -> nat, start: int, middle: int, end: int)
    requires
        start <= middle <= end,
    ensures
        run_total(weight, start, end) == run_total(weight, start, middle) + run_total(
            weight,
            middle,
            end,
        ),
    decreases end - middle,
{
    if middle < end {
        lemma_run_join(weight, start, middle, end - 1);
    }
}

/// A run of nothing weighs nothing.
pub proof fn lemma_run_nothing(weight: spec_fn(int) -> nat, start: int, end: int)
    requires
        forall|k: int| start <= k < end ==> #[trigger] weight(k) == 0,
    ensures
        run_total(weight, start, end) == 0,
    decreases end - start,
{
    if start < end {
        lemma_run_nothing(weight, start, end - 1);
        assert(weight(end - 1) == 0);
    }
}

/// A run in which one position has weight weighs as much.
pub proof fn lemma_run_single(weight: spec_fn(int) -> nat, start: int, end: int, at: int)
    requires
        start <= at < end,
        forall|k: int| start <= k < end && k != at ==> #[trigger] weight(k) == 0,
    ensures
        run_total(weight, start, end) == weight(at),
{
    lemma_run_join(weight, start, at, end);
    lemma_run_join(weight, at, at + 1, end);
    lemma_run_nothing(weight, start, at);
    lemma_run_nothing(weight, at + 1, end);
    assert(run_total(weight, at, at) == 0);
}

/// Runs of equal weights weigh the same.
pub proof fn lemma_run_same(
    left: spec_fn(int) -> nat,
    right: spec_fn(int) -> nat,
    start: int,
    end: int,
)
    requires
        forall|k: int| start <= k < end ==> #[trigger] left(k) == right(k),
    ensures
        run_total(left, start, end) == run_total(right, start, end),
    decreases end - start,
{
    if start < end {
        lemma_run_same(left, right, start, end - 1);
        assert(left(end - 1) == right(end - 1));
    }
}

/// A run weighs at least what one of its positions does.
pub proof fn lemma_run_holds(weight: spec_fn(int) -> nat, start: int, end: int, at: int)
    requires
        start <= at < end,
    ensures
        weight(at) <= run_total(weight, start, end),
    decreases end - start,
{
    if at < end - 1 {
        lemma_run_holds(weight, start, end - 1, at);
    }
}

/// A run in which at most one position has weight, and that at most one, weighs at most one.
pub proof fn lemma_run_once(weight: spec_fn(int) -> nat, start: int, end: int)
    requires
        forall|k: int| start <= k < end ==> #[trigger] weight(k) <= 1,
        forall|i: int, j: int|
            start <= i < j < end ==> #[trigger] weight(i) == 0 || #[trigger] weight(j) == 0,
    ensures
        run_total(weight, start, end) <= 1,
    decreases end - start,
{
    if start < end {
        lemma_run_once(weight, start, end - 1);
        assert(weight(end - 1) <= 1);
        if weight(end - 1) == 1 {
            assert forall|k: int| start <= k < end - 1 implies #[trigger] weight(k) == 0 by {}
            lemma_run_nothing(weight, start, end - 1);
        }
    }
}

/// No range holds a position between two of them.
pub proof fn lemma_between(ranges: Seq<Span>, index: int, position: int)
    requires
        0 <= index <= ranges.len(),
        ranges_apart(ranges),
        forall|k: int| 0 <= k < ranges.len() ==> (#[trigger] ranges[k]).start < ranges[k].end,
        index > 0 ==> ranges[index - 1].end <= position,
        index < ranges.len() ==> position < ranges[index].start,
    ensures
        !selects(ranges, position),
{
    if selects(ranges, position) {
        let k = choose|k: int| 0 <= k < ranges.len() && (#[trigger] ranges[k]).has(position);
        if k < index - 1 {
            assert(ranges[k].end < ranges[index - 1].start);
        } else if k > index {
            assert(ranges[index].end < ranges[k].start);
        }
    }
}

/// How often a row of a unit makes the claim.
pub open spec fn row_claims(row: UnitRow, claim: Claim) -> nat {
    match (row, claim) {
        (UnitRow::Marked(number), Claim::Edited(line)) => if number == line {
            1
        } else {
            0
        },
        (UnitRow::Reflow(number), Claim::Reflowed(line)) => if number == line {
            1
        } else {
            0
        },
        (UnitRow::Edit(edit), Claim::Removed(line)) => if edit.before == Some(line) {
            1
        } else {
            0
        },
        (UnitRow::Edit(edit), Claim::Added(line)) => if edit.after == Some(line) {
            1
        } else {
            0
        },
        _ => 0,
    }
}

/// How often the row at a position makes the claim.
pub open spec fn row_weight(rows: Seq<UnitRow>, claim: Claim) -> spec_fn(int) -> nat {
    |k: int| row_claims(rows[k], claim)
}

/// How often the rows make the claim.
pub open spec fn rows_tally(rows: Seq<UnitRow>, claim: Claim) -> nat {
    run_total(row_weight(rows, claim), 0, rows.len() as int)
}

/// One more row makes its claims beside the others.
pub proof fn lemma_rows_tally_push(rows: Seq<UnitRow>, row: UnitRow, claim: Claim)
    ensures
        rows_tally(rows.push(row), claim) == rows_tally(rows, claim) + row_claims(row, claim),
{
    lemma_run_same(
        row_weight(rows.push(row), claim),
        row_weight(rows, claim),
        0,
        rows.len() as int,
    );
}

/// Every line is claimed at most once: an old line by one removal, a current line by one
/// addition, edit or reflow; and nothing is moved or wired.
pub open spec fn owned_once(excerpts: Seq<Excerpt>) -> bool {
    &&& forall|line: usize| #[trigger] excerpts_tally(excerpts, Claim::Removed(line)) <= 1
    &&& forall|line: usize| #[trigger] claims_on_current(excerpts, line) <= 1
}

/// How often the excerpts claim a current line.
pub open spec fn claims_on_current(excerpts: Seq<Excerpt>, line: usize) -> nat {
    excerpts_tally(excerpts, Claim::Added(line)) + excerpts_tally(excerpts, Claim::Edited(line))
        + excerpts_tally(excerpts, Claim::Reflowed(line))
}

/// A change that shows a row makes its claims.
pub proof fn lemma_row_claims(
    change: SourceChange,
    row: UnitRow,
    claim: Claim,
    before_count: int,
    after_count: int,
)
    requires
        shows_row(change, row),
        row.fits(before_count, after_count),
    ensures
        claims_in(change, claim) == row_claims(row, claim),
{
    if let UnitRow::Edit(edit) = row {
        if let SourceChange::Replace { before: removed, after: added, line_endings } = change {
            match claim {
                Claim::Removed(line) => {
                    lemma_numbered_range(removed@, side_rows(edit.before), line);
                },
                Claim::Added(line) => {
                    lemma_numbered_range(added@, side_rows(edit.after), line);
                },
                _ => {},
            }
        }
    }
}

/// How often the excerpts make the claim.
pub open spec fn excerpts_tally(excerpts: Seq<Excerpt>, claim: Claim) -> nat {
    total(excerpts, excerpt_weight(claim))
}

pub open spec fn excerpt_weight(claim: Claim) -> spec_fn(Excerpt) -> nat {
    |excerpt: Excerpt| tally(excerpt.changes@, claim)
}

/// How often the anchored changes make the claim.
pub open spec fn anchored_tally(changes: Seq<AnchoredChange>, claim: Claim) -> nat {
    total(changes, anchored_weight(claim))
}

pub open spec fn anchored_weight(claim: Claim) -> spec_fn(AnchoredChange) -> nat {
    |change: AnchoredChange| tally(change.changes@, claim)
}

/// How often the hunks make the claim.
pub open spec fn hunks_tally(hunks: Seq<RefinedHunk>, claim: Claim) -> nat {
    total(hunks, hunk_weight(claim))
}

pub open spec fn hunk_weight(claim: Claim) -> spec_fn(RefinedHunk) -> nat {
    |hunk: RefinedHunk| tally(hunk.changes@, claim)
}

} // verus!

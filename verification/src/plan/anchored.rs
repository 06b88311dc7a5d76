//! Fragments placed in the current file, and melded where they are neighbors.

use crate::change::{Buoyancy, Signal};
use crate::context::{include_range, included, merge_windows_touch, CONTEXT_HALO_RADIUS};
use crate::correspondence::scopes::ascending;
use crate::plan::excerpts::{displayed_by, displayed_lines, displays, holds, names_line, Excerpt};
use crate::plan::order::{holds_also, holds_both, line_hull, LineAlignment, SignalFocus, SourceOrder};
use crate::plan::rows::coverage_fits;
use crate::plan::scene::PlanScene;
use crate::plan::tally::{claims_in, lemma_numbered_join, lemma_tally_push, tally, Claim};
use crate::plan::units::Fragment;
use crate::review::{
    change_fits, changes_fit, edits_exist, is_line, LineCoverage, SourceChange, SourceEdit,
};
use crate::span::Span;
use vstd::prelude::*;

verus! {

/// Some change replaces the old line.
pub open spec fn removes(changes: Seq<SourceChange>, line: usize) -> bool {
    exists|k: int| 0 <= k < changes.len() && removed_by(#[trigger] changes[k], line)
}

/// The change replaces the old line.
pub open spec fn removed_by(change: SourceChange, line: usize) -> bool {
    change matches SourceChange::Replace { before, after, line_endings } && names_line(
        before@,
        line,
    )
}

/// Some change other than plain context displays the current line.
pub open spec fn signals(changes: Seq<SourceChange>, line: usize) -> bool {
    exists|k: int| 0 <= k < changes.len() && signaled_by(#[trigger] changes[k], line)
}

/// The change is more than context and displays the current line.
pub open spec fn signaled_by(change: SourceChange, line: usize) -> bool {
    !(change is Context) && displayed_by(change, line)
}

/// What one list replaces or signals, the other does too, and no list marks a row more often.
pub open spec fn keeps_review(earlier: Seq<SourceChange>, later: Seq<SourceChange>) -> bool {
    &&& forall|line: usize| removes(earlier, line) ==> #[trigger] removes(later, line)
    &&& forall|line: usize| signals(earlier, line) ==> #[trigger] signals(later, line)
    &&& forall|claim: Claim| #[trigger] tally(later, claim) == tally(earlier, claim)
}

/// Keeping is transitive.
pub proof fn lemma_keeps_chain(
    first: Seq<SourceChange>,
    second: Seq<SourceChange>,
    third: Seq<SourceChange>,
)
    requires
        keeps_review(first, second),
        keeps_review(second, third),
    ensures
        keeps_review(first, third),
{
    assert forall|line: usize| removes(first, line) implies #[trigger] removes(third, line) by {
        assert(removes(second, line));
    }
    assert forall|line: usize| signals(first, line) implies #[trigger] signals(third, line) by {
        assert(signals(second, line));
    }
}

/// A list that holds every change of another, plain context and elisions aside, keeps it.
pub proof fn lemma_keeps_members(earlier: Seq<SourceChange>, later: Seq<SourceChange>)
    requires
        forall|k: int|
            0 <= k < earlier.len() && !((#[trigger] earlier[k]) is Context) && !(
            earlier[k] is Elision) ==> later.contains(earlier[k]),
        forall|claim: Claim| #[trigger] tally(later, claim) == tally(earlier, claim),
    ensures
        keeps_review(earlier, later),
{
    assert forall|line: usize| removes(earlier, line) implies #[trigger] removes(later, line) by {
        let k = choose|k: int| 0 <= k < earlier.len() && removed_by(#[trigger] earlier[k], line);
        assert(later.contains(earlier[k]));
        let i = choose|i: int| 0 <= i < later.len() && later[i] == earlier[k];
        assert(removed_by(later[i], line));
    }
    assert forall|line: usize| signals(earlier, line) implies #[trigger] signals(later, line) by {
        let k = choose|k: int| 0 <= k < earlier.len() && signaled_by(#[trigger] earlier[k], line);
        assert(later.contains(earlier[k]));
        let i = choose|i: int| 0 <= i < later.len() && later[i] == earlier[k];
        assert(signaled_by(later[i], line));
    }
}

/// Review fragments anchored to current-world order and ready to meld.
pub struct AnchoredChange {
    pub buoyancy: Buoyancy,
    pub coverage: LineCoverage,
    pub changes: Vec<SourceChange>,
    /// Lines that ask for context.
    pub context_focus: SignalFocus,
    pub order: SourceOrder,
    /// Lines within which a neighbor melds.
    pub merge_window: Span,
}

impl AnchoredChange {
    /// Everything that the change names exists.
    pub open spec fn fits(self, before_count: int, after_count: int) -> bool {
        &&& changes_fit(self.changes@, before_count, after_count)
        &&& coverage_fits(self.coverage, before_count, after_count)
        &&& self.context_focus.fits(before_count, after_count)
        &&& self.buoyancy.height <= 3
    }

    /// Order inside the current file.
    pub open spec fn place(self) -> (usize, usize) {
        order_place(self.order)
    }
}

pub open spec fn all_fit(changes: Seq<AnchoredChange>, before_count: int, after_count: int) -> bool {
    forall|k: int|
        0 <= k < changes.len() ==> (#[trigger] changes[k]).fits(before_count, after_count)
}

/// Gap, then old lines before the current line.
pub open spec fn order_place(order: SourceOrder) -> (usize, usize) {
    (
        order.after_gap.lines,
        match order.deletion {
            Some(line) => line,
            None => usize::MAX,
        },
    )
}

/// Gap and place in the gap.
pub fn place_of(order: SourceOrder) -> (place: (usize, usize))
    ensures
        place == order_place(order),
{
    (
        order.after_gap.preceding_lines(),
        match order.deletion {
            Some(line) => line,
            None => usize::MAX,
        },
    )
}

/// Expand only signals that actually receive ordinary context.
pub fn merge_window(focus: Span, signal: Signal) -> (window: Span)
    ensures
        signal == Signal::Move ==> window.start == if focus.start >= 1 {
            focus.start
        } else {
            1
        } && window.end == focus.end,
        signal != Signal::Move ==> window.start == if focus.start > CONTEXT_HALO_RADIUS {
            focus.start - CONTEXT_HALO_RADIUS
        } else {
            1
        } && window.end == if focus.end + CONTEXT_HALO_RADIUS <= usize::MAX {
            focus.end + CONTEXT_HALO_RADIUS
        } else {
            usize::MAX as int
        },
{
    let radius: usize = if signal.receives_context() {
        CONTEXT_HALO_RADIUS
    } else {
        0
    };
    let start = if focus.start > radius {
        focus.start - radius
    } else {
        1
    };
    let end = if focus.end <= usize::MAX - radius {
        focus.end + radius
    } else {
        usize::MAX
    };
    Span { start, end }
}

/// Add the numbers of edits to the lines of one revision.
fn add_numbers(
    focus: &mut SignalFocus,
    edits: &Vec<SourceEdit>,
    removed: bool,
    Ghost(before_count): Ghost<int>,
    Ghost(after_count): Ghost<int>,
)
    requires
        old(focus).fits(before_count, after_count),
        edits_exist(
            edits@,
            if removed {
                before_count
            } else {
                after_count
            },
        ),
    ensures
        final(focus).fits(before_count, after_count),
        old(focus).has_lines() || edits@.len() > 0 ==> final(focus).has_lines(),
        names_also(
            final(focus).before@,
            old(focus).before@,
            if removed {
                edits@
            } else {
                Seq::empty()
            },
        ),
        names_also(
            final(focus).after@,
            old(focus).after@,
            if removed {
                Seq::empty()
            } else {
                edits@
            },
        ),
{
    assert(edits@.take(0) =~= Seq::<SourceEdit>::empty());
    let mut index: usize = 0;
    while index < edits.len()
        invariant
            focus.fits(before_count, after_count),
            edits_exist(
                edits@,
                if removed {
                    before_count
                } else {
                    after_count
                },
            ),
            index <= edits@.len(),
            old(focus).has_lines() || index > 0 ==> focus.has_lines(),
            names_also(
                focus.before@,
                old(focus).before@,
                if removed {
                    edits@.take(index as int)
                } else {
                    Seq::empty()
                },
            ),
            names_also(
                focus.after@,
                old(focus).after@,
                if removed {
                    Seq::empty()
                } else {
                    edits@.take(index as int)
                },
            ),
        decreases edits@.len() - index,
    {
        let ghost middle = *focus;
        let number = edits[index].number;
        assert(is_line(
            edits@[index as int].number,
            if removed {
                before_count
            } else {
                after_count
            },
        ));
        if removed {
            focus.add_before(number, Ghost(before_count), Ghost(after_count));
        } else {
            focus.add_after(number, Ghost(before_count), Ghost(after_count));
        }
        proof {
            if removed {
                lemma_names_more(
                    focus.before@,
                    middle.before@,
                    old(focus).before@,
                    edits@,
                    index as int,
                );
            } else {
                lemma_names_more(
                    focus.after@,
                    middle.after@,
                    old(focus).after@,
                    edits@,
                    index as int,
                );
            }
        }
        index += 1;
    }
    assert(edits@.take(index as int) =~= edits@);
}

/// The list holds what it held and the numbers of the edits, and nothing else.
pub open spec fn names_also(
    later: Seq<usize>,
    earlier: Seq<usize>,
    edits: Seq<SourceEdit>,
) -> bool {
    forall|line: usize| #[trigger]
        later.contains(line) <==> earlier.contains(line) || names_line(edits, line)
}

/// One more of the edits.
proof fn lemma_names_more(
    later: Seq<usize>,
    middle: Seq<usize>,
    earlier: Seq<usize>,
    edits: Seq<SourceEdit>,
    index: int,
)
    requires
        0 <= index < edits.len(),
        names_also(middle, earlier, edits.take(index)),
        holds_also(later, middle, edits[index].number),
    ensures
        names_also(later, earlier, edits.take(index + 1)),
{
    let shorter = edits.take(index);
    let longer = edits.take(index + 1);
    assert forall|line: usize| #[trigger] later.contains(line) <==> earlier.contains(line)
        || names_line(longer, line) by {
        assert(middle.contains(line) <==> earlier.contains(line) || names_line(shorter, line));
        lemma_joined_names(shorter, seq![edits[index]], line);
        assert(longer =~= shorter + seq![edits[index]]);
        assert(seq![edits[index]][0] == edits[index]);
    }
}

/// The change signals the old line.
pub open spec fn focuses_before(change: SourceChange, line: usize) -> bool {
    match change {
        SourceChange::Replace { before, after, line_endings } => names_line(before@, line),
        SourceChange::Move(block) => block.before.start < block.before.end && line
            == block.before.start,
        SourceChange::Compact(compact) => compact.before_line == Some(line),
        _ => false,
    }
}

/// The change signals the current line; a move does so at its first and its last.
pub open spec fn focuses_after(change: SourceChange, line: usize) -> bool {
    match change {
        SourceChange::Edited(edit) => edit.number == line,
        SourceChange::Reflow(number) => number == line,
        SourceChange::Replace { before, after, line_endings } => names_line(after@, line),
        SourceChange::Move(block) => line == block.after.start || line + 1 == block.after.end,
        SourceChange::Compact(compact) => compact.after_line == Some(line),
        _ => false,
    }
}

/// Some change signals the old line.
pub open spec fn stands_before(changes: Seq<SourceChange>, line: usize) -> bool {
    exists|k: int| 0 <= k < changes.len() && focuses_before(#[trigger] changes[k], line)
}

/// Some change signals the current line.
pub open spec fn stands_after(changes: Seq<SourceChange>, line: usize) -> bool {
    exists|k: int| 0 <= k < changes.len() && focuses_after(#[trigger] changes[k], line)
}

/// The focus holds the lines that the changes signal, and no others.
pub open spec fn is_focus(changes: Seq<SourceChange>, focus: SignalFocus) -> bool {
    &&& forall|line: usize| #[trigger]
        focus.before@.contains(line) <==> stands_before(changes, line)
    &&& forall|line: usize| #[trigger]
        focus.after@.contains(line) <==> stands_after(changes, line)
}

/// One more change adds the lines that it signals.
proof fn lemma_focus_grows(
    changes: Seq<SourceChange>,
    index: int,
    earlier: SignalFocus,
    later: SignalFocus,
)
    requires
        0 <= index < changes.len(),
        is_focus(changes.take(index), earlier),
        forall|line: usize| #[trigger]
            later.before@.contains(line) <==> earlier.before@.contains(line) || focuses_before(
                changes[index],
                line,
            ),
        forall|line: usize| #[trigger]
            later.after@.contains(line) <==> earlier.after@.contains(line) || focuses_after(
                changes[index],
                line,
            ),
    ensures
        is_focus(changes.take(index + 1), later),
{
    let shorter = changes.take(index);
    let longer = changes.take(index + 1);
    assert(longer[index] == changes[index]);
    assert forall|line: usize| (stands_before(longer, line) <==> stands_before(shorter, line)
        || focuses_before(changes[index], line)) && (stands_after(longer, line) <==> stands_after(
        shorter,
        line,
    ) || focuses_after(changes[index], line)) by {
        if stands_before(longer, line) {
            let k = choose|k: int|
                0 <= k < longer.len() && focuses_before(#[trigger] longer[k], line);
            if k < index {
                assert(focuses_before(shorter[k], line));
            }
        }
        if stands_before(shorter, line) {
            let k = choose|k: int|
                0 <= k < shorter.len() && focuses_before(#[trigger] shorter[k], line);
            assert(focuses_before(longer[k], line));
        }
        if stands_after(longer, line) {
            let k = choose|k: int|
                0 <= k < longer.len() && focuses_after(#[trigger] longer[k], line);
            if k < index {
                assert(focuses_after(shorter[k], line));
            }
        }
        if stands_after(shorter, line) {
            let k = choose|k: int|
                0 <= k < shorter.len() && focuses_after(#[trigger] shorter[k], line);
            assert(focuses_after(longer[k], line));
        }
    }
}

/// The change is a signal.
pub open spec fn is_signal(change: SourceChange) -> bool {
    match change {
        SourceChange::Context(line) => false,
        SourceChange::LineEnding(ending) => false,
        SourceChange::Elision(coverage) => false,
        _ => true,
    }
}

/// Lines of all signals.
fn focus_of(
    changes: &Vec<SourceChange>,
    Ghost(before_count): Ghost<int>,
    Ghost(after_count): Ghost<int>,
) -> (focus: SignalFocus)
    requires
        changes_fit(changes@, before_count, after_count),
    ensures
        focus.fits(before_count, after_count),
        (exists|k: int| 0 <= k < changes@.len() && is_signal(#[trigger] changes@[k]))
            ==> focus.has_lines(),
        is_focus(changes@, focus),
{
    let mut focus = SignalFocus::nothing();
    let mut index: usize = 0;
    while index < changes.len()
        invariant
            changes_fit(changes@, before_count, after_count),
            index <= changes@.len(),
            focus.fits(before_count, after_count),
            (exists|k: int| 0 <= k < index && is_signal(#[trigger] changes@[k]))
                ==> focus.has_lines(),
            is_focus(changes@.take(index as int), focus),
        decreases changes@.len() - index,
    {
        let ghost earlier = focus;
        assert(change_fits(changes@[index as int], before_count, after_count));
        match &changes[index] {
            SourceChange::Context(_) => {},
            SourceChange::Edited(edit) => {
                focus.add_after(edit.number, Ghost(before_count), Ghost(after_count));
            },
            SourceChange::Reflow(line) => {
                focus.add_after(*line, Ghost(before_count), Ghost(after_count));
            },
            SourceChange::Replace { before, after, line_endings: _ } => {
                add_numbers(&mut focus, before, true, Ghost(before_count), Ghost(after_count));
                add_numbers(&mut focus, after, false, Ghost(before_count), Ghost(after_count));
            },
            SourceChange::LineEnding(_) => {},
            SourceChange::Move(block) => {
                if block.before.start < block.before.end {
                    focus.add_before(
                        block.before.start,
                        Ghost(before_count),
                        Ghost(after_count),
                    );
                }
                focus.add_after(block.after.start, Ghost(before_count), Ghost(after_count));
                focus.add_after(block.after.end - 1, Ghost(before_count), Ghost(after_count));
            },
            SourceChange::Compact(compact) => {
                if let Some(line) = compact.before_line {
                    focus.add_before(line, Ghost(before_count), Ghost(after_count));
                }
                if let Some(line) = compact.after_line {
                    focus.add_after(line, Ghost(before_count), Ghost(after_count));
                }
            },
            SourceChange::Elision(_) => {},
        }
        proof {
            lemma_focus_grows(changes@, index as int, earlier, focus);
        }
        index += 1;
    }
    assert(changes@.take(index as int) =~= changes@);
    focus
}

/// The current line at which the fragment is placed by its hint: behind the lines of its gap, or
/// at the last line.
pub open spec fn hint_line(order: SourceOrder, after_lines: int) -> int {
    if order.after_gap.lines + 1 <= after_lines {
        order.after_gap.lines + 1
    } else {
        after_lines
    }
}

/// The order is that of the first current line of the focus, or else of its first old line.
pub open spec fn is_focus_order(
    alignment: LineAlignment<'_>,
    focus: SignalFocus,
    order: SourceOrder,
) -> bool {
    if focus.after@.len() > 0 {
        order.deletion is None && order.after_gap.lines + 1 == focus.after@[0]
    } else {
        alignment.is_first_place(focus.before@, order)
    }
}

/// The change stands where the fragment says, or else at its first signal; it asks for context
/// there, or at all of its signals, unless it is a move.
pub open spec fn is_placed(
    fragment: Fragment,
    alignment: LineAlignment<'_>,
    change: AnchoredChange,
) -> bool {
    &&& match fragment.order_hint {
        Some(order) => change.order == order,
        None => exists|focus: SignalFocus| #[trigger]
            is_focus(fragment.excerpt.changes@, focus) && focus.fits(
                alignment.before_lines as int,
                alignment.after_lines as int,
            ) && is_focus_order(alignment, focus, change.order),
    }
    &&& alignment.after_lines + 3 < usize::MAX && alignment.before_lines + 3 < usize::MAX
        ==> exists|lines: Span| #[trigger]
        melds_within(fragment, alignment, lines, change.merge_window)
    &&& if fragment.signal == Signal::Move {
        !change.context_focus.has_lines()
    } else {
        match fragment.order_hint {
            Some(order) => if alignment.after_lines > 0 {
                change.context_focus.before@.len() == 0 && forall|line: usize| #[trigger]
                    change.context_focus.after@.contains(line) <==> line == hint_line(
                        order,
                        alignment.after_lines as int,
                    )
            } else {
                is_focus(fragment.excerpt.changes@, change.context_focus)
            },
            None => is_focus(fragment.excerpt.changes@, change.context_focus),
        }
    }
}

/// No replacement directly follows another.
pub open spec fn replacements_apart(changes: Seq<SourceChange>) -> bool {
    forall|i: int, j: int|
        0 <= i && j == i + 1 && j < changes.len() ==> !((#[trigger] changes[i]) is Replace && (
        #[trigger] changes[j]) is Replace)
}

/// Joining two replacements names the lines of both.
proof fn lemma_joined_names(first: Seq<SourceEdit>, second: Seq<SourceEdit>, line: usize)
    ensures
        names_line(first + second, line) <==> names_line(first, line) || names_line(second, line),
{
    let all = first + second;
    if names_line(all, line) {
        let k = choose|k: int| 0 <= k < all.len() && (#[trigger] all[k]).number == line;
        if k < first.len() {
            assert(first[k].number == line);
        } else {
            assert(second[k - first.len()].number == line);
        }
    }
    if names_line(first, line) {
        let k = choose|k: int| 0 <= k < first.len() && (#[trigger] first[k]).number == line;
        assert(all[k].number == line);
    }
    if names_line(second, line) {
        let k = choose|k: int| 0 <= k < second.len() && (#[trigger] second[k]).number == line;
        assert(all[first.len() + k].number == line);
    }
}

/// A change in place of two that names the same lines keeps the review.
proof fn lemma_joined_keeps(
    rest: Seq<SourceChange>,
    left: SourceChange,
    right: SourceChange,
    joined: SourceChange,
)
    requires
        forall|line: usize|
            removed_by(left, line) || removed_by(right, line) ==> #[trigger] removed_by(
                joined,
                line,
            ),
        forall|line: usize|
            signaled_by(left, line) || signaled_by(right, line) ==> #[trigger] signaled_by(
                joined,
                line,
            ),
        forall|claim: Claim| #[trigger]
            claims_in(joined, claim) == claims_in(left, claim) + claims_in(right, claim),
    ensures
        keeps_review(rest.push(left).push(right), rest.push(joined)),
{
    let earlier = rest.push(left).push(right);
    let later = rest.push(joined);
    assert(later[rest.len() as int] == joined);
    assert forall|claim: Claim| #[trigger] tally(later, claim) == tally(earlier, claim) by {
        lemma_tally_push(rest, joined, claim);
        lemma_tally_push(rest, left, claim);
        lemma_tally_push(rest.push(left), right, claim);
        assert(claims_in(joined, claim) == claims_in(left, claim) + claims_in(right, claim));
    }
    assert forall|line: usize| removes(earlier, line) implies #[trigger] removes(later, line) by {
        let k = choose|k: int| 0 <= k < earlier.len() && removed_by(#[trigger] earlier[k], line);
        if k < rest.len() {
            assert(later[k] == earlier[k]);
        } else {
            assert(removed_by(joined, line));
            assert(removed_by(later[rest.len() as int], line));
        }
    }
    assert forall|line: usize| signals(earlier, line) implies #[trigger] signals(later, line) by {
        let k = choose|k: int| 0 <= k < earlier.len() && signaled_by(#[trigger] earlier[k], line);
        if k < rest.len() {
            assert(later[k] == earlier[k]);
        } else {
            assert(signaled_by(joined, line));
            assert(signaled_by(later[rest.len() as int], line));
        }
    }
}

/// Join a replacement with the one before it.
fn join_replacement(
    merged: &mut Vec<SourceChange>,
    change: SourceChange,
    Ghost(before_count): Ghost<int>,
    Ghost(after_count): Ghost<int>,
)
    requires
        changes_fit(old(merged)@, before_count, after_count),
        change_fits(change, before_count, after_count),
        old(merged)@.len() > 0,
        old(merged)@.last() is Replace,
        change is Replace,
        replacements_apart(old(merged)@),
    ensures
        changes_fit(final(merged)@, before_count, after_count),
        keeps_review(old(merged)@.push(change), final(merged)@),
        replacements_apart(final(merged)@),
        final(merged)@.len() == old(merged)@.len(),
        final(merged)@.last() is Replace,
{
    let ghost whole = merged@;
    let ghost rest = merged@.drop_last();
    let previous = merged.pop().unwrap();
    assert(change_fits(whole[whole.len() - 1], before_count, after_count));
    if let SourceChange::Replace { before, after, line_endings } = previous {
        let mut joined_before = before;
        let mut joined_after = after;
        let mut joined_endings = line_endings;
        let ghost left = SourceChange::Replace {
            before: joined_before,
            after: joined_after,
            line_endings: joined_endings,
        };
        let ghost left_before = joined_before@;
        let ghost left_after = joined_after@;
        if let SourceChange::Replace { before, after, line_endings } = change {
            let mut more_before = before;
            let mut more_after = after;
            let mut more_endings = line_endings;
            let ghost right_before = more_before@;
            let ghost right_after = more_after@;
            joined_before.append(&mut more_before);
            joined_after.append(&mut more_after);
            joined_endings.append(&mut more_endings);
            let joined = SourceChange::Replace {
                before: joined_before,
                after: joined_after,
                line_endings: joined_endings,
            };
            proof {
                assert(joined_before@ =~= left_before + right_before);
                assert(joined_after@ =~= left_after + right_after);
                assert forall|k: int| 0 <= k < joined_before@.len() implies is_line(
                    (#[trigger] joined_before@[k]).number,
                    before_count,
                ) by {
                    if k < left_before.len() {
                        assert(joined_before@[k] == left_before[k]);
                    } else {
                        assert(joined_before@[k] == right_before[k - left_before.len()]);
                    }
                }
                assert forall|k: int| 0 <= k < joined_after@.len() implies is_line(
                    (#[trigger] joined_after@[k]).number,
                    after_count,
                ) by {
                    if k < left_after.len() {
                        assert(joined_after@[k] == left_after[k]);
                    } else {
                        assert(joined_after@[k] == right_after[k - left_after.len()]);
                    }
                }
                assert forall|line: usize|
                    removed_by(left, line) || removed_by(
                        change,
                        line,
                    ) implies #[trigger] removed_by(joined, line) by {
                    lemma_joined_names(left_before, right_before, line);
                }
                assert forall|line: usize|
                    signaled_by(left, line) || signaled_by(
                        change,
                        line,
                    ) implies #[trigger] signaled_by(joined, line) by {
                    lemma_joined_names(left_after, right_after, line);
                }
                assert forall|claim: Claim| #[trigger]
                    claims_in(joined, claim) == claims_in(left, claim) + claims_in(
                        change,
                        claim,
                    ) by {
                    match claim {
                        Claim::Removed(line) => {
                            lemma_numbered_join(left_before, right_before, line);
                        },
                        Claim::Added(line) => {
                            lemma_numbered_join(left_after, right_after, line);
                        },
                        _ => {},
                    }
                }
                lemma_joined_keeps(rest, left, change, joined);
                assert(rest.push(left) =~= whole);
                assert(rest =~= merged@);
            }
            merged.push(joined);
        }
    }
}

/// Join neighboring replacements, so that each revision stays one coherent run.
fn group_rows(
    changes: Vec<SourceChange>,
    Ghost(before_count): Ghost<int>,
    Ghost(after_count): Ghost<int>,
) -> (merged: Vec<SourceChange>)
    requires
        changes_fit(changes@, before_count, after_count),
    ensures
        changes_fit(merged@, before_count, after_count),
        keeps_review(changes@, merged@),
        replacements_apart(merged@),
{
    let ghost whole = changes@;
    let mut pending = reversed(changes);
    let mut merged: Vec<SourceChange> = Vec::new();
    proof {
        assert(whole.take(0) =~= Seq::<SourceChange>::empty());
        lemma_keeps_members(whole.take(0), merged@);
    }
    while pending.len() > 0
        invariant
            changes_fit(whole, before_count, after_count),
            pending@.len() <= whole.len(),
            forall|k: int|
                0 <= k < pending@.len() ==> (#[trigger] pending@[k]) == whole[whole.len() - 1 - k],
            changes_fit(merged@, before_count, after_count),
            keeps_review(whole.take(whole.len() - pending@.len()), merged@),
            replacements_apart(merged@),
        decreases pending@.len(),
    {
        let ghost count = pending@.len();
        let ghost at = whole.len() - count;
        let ghost earlier = merged@;
        let change = pending.pop().unwrap();
        assert(change == whole[at as int]);
        assert(change_fits(whole[at as int], before_count, after_count));
        let joins = matches!(change, SourceChange::Replace { .. }) && merged.len() > 0 && matches!(
            merged[merged.len() - 1],
            SourceChange::Replace { .. }
        );
        proof {
            lemma_keeps_push(whole.take(at as int), earlier, change);
            assert(whole.take(at + 1) =~= whole.take(at as int).push(change));
        }
        if joins {
            join_replacement(&mut merged, change, Ghost(before_count), Ghost(after_count));
            proof {
                lemma_keeps_chain(whole.take(at + 1), earlier.push(change), merged@);
            }
        } else {
            merged.push(change);
        }
    }
    assert(whole.take(whole.len() as int) =~= whole);
    merged
}

/// One more change on both sides keeps keeping.
proof fn lemma_keeps_push(earlier: Seq<SourceChange>, later: Seq<SourceChange>, change: SourceChange)
    requires
        keeps_review(earlier, later),
    ensures
        keeps_review(earlier.push(change), later.push(change)),
{
    let grown = earlier.push(change);
    let kept = later.push(change);
    assert(kept[later.len() as int] == change);
    assert forall|claim: Claim| #[trigger] tally(kept, claim) == tally(grown, claim) by {
        lemma_tally_push(later, change, claim);
        lemma_tally_push(earlier, change, claim);
        assert(tally(later, claim) == tally(earlier, claim));
    }
    assert forall|line: usize| removes(grown, line) implies #[trigger] removes(kept, line) by {
        let k = choose|k: int| 0 <= k < grown.len() && removed_by(#[trigger] grown[k], line);
        if k < earlier.len() {
            assert(removed_by(earlier[k], line));
            assert(removes(later, line));
            let i = choose|i: int| 0 <= i < later.len() && removed_by(#[trigger] later[i], line);
            assert(kept[i] == later[i]);
        } else {
            assert(removed_by(kept[later.len() as int], line));
        }
    }
    assert forall|line: usize| signals(grown, line) implies #[trigger] signals(kept, line) by {
        let k = choose|k: int| 0 <= k < grown.len() && signaled_by(#[trigger] grown[k], line);
        if k < earlier.len() {
            assert(signaled_by(earlier[k], line));
            assert(signals(later, line));
            let i = choose|i: int| 0 <= i < later.len() && signaled_by(#[trigger] later[i], line);
            assert(kept[i] == later[i]);
        } else {
            assert(signaled_by(kept[later.len() as int], line));
        }
    }
}

/// The items in opposite order.
pub fn reversed<T>(items: Vec<T>) -> (result: Vec<T>)
    ensures
        result@.len() == items@.len(),
        forall|k: int|
            0 <= k < result@.len() ==> (#[trigger] result@[k]) == items@[items@.len() - 1 - k],
{
    let ghost whole = items@;
    let mut pending = items;
    let mut result: Vec<T> = Vec::new();
    while pending.len() > 0
        invariant
            pending@.len() + result@.len() == whole.len(),
            pending@ == whole.take(pending@.len() as int),
            forall|k: int|
                0 <= k < result@.len() ==> (#[trigger] result@[k]) == whole[whole.len() - 1 - k],
        decreases pending@.len(),
    {
        let ghost count = pending@.len();
        let item = pending.pop().unwrap();
        assert(item == whole[count - 1]);
        result.push(item);
    }
    result
}

/// A halo grown over the lines that are displayed without a gap around the focus, so that no
/// neighbor repeats one of them as its own context.
fn displayed_window(halo: Span, focus: Span, changes: &Vec<SourceChange>) -> (window: Span)
    requires
        focus.start < focus.end,
    ensures
        window.start <= halo.start,
        halo.end <= window.end,
        forall|line: usize|
            window.start <= line < focus.start && line < halo.start ==> displays(changes@, line),
        forall|line: usize|
            focus.end <= line < window.end && halo.end <= line ==> displays(changes@, line),
        halo.start <= focus.start && focus.end <= halo.end ==> is_window(
            halo,
            focus,
            changes@,
            window,
        ),
{
    let displayed = displayed_lines(changes);
    let mut start = focus.start;
    while start > 0 && holds(&displayed, start - 1)
        invariant
            ascending(displayed@),
            forall|line: usize| displayed@.contains(line) <==> displays(changes@, line),
            start <= focus.start,
            forall|line: usize| start <= line < focus.start ==> displays(changes@, line),
        decreases start,
    {
        assert(displayed@.contains((start - 1) as usize));
        start -= 1;
    }
    let mut end = focus.end;
    while end < usize::MAX && holds(&displayed, end)
        invariant
            ascending(displayed@),
            forall|line: usize| displayed@.contains(line) <==> displays(changes@, line),
            focus.end <= end,
            forall|line: usize| focus.end <= line < end ==> displays(changes@, line),
        decreases usize::MAX - end,
    {
        assert(displayed@.contains(end));
        end += 1;
    }
    let window = Span {
        start: if start < halo.start {
            start
        } else {
            halo.start
        },
        end: if end > halo.end {
            end
        } else {
            halo.end
        },
    };
    proof {
        if start > 0 {
            assert(!displayed@.contains((start - 1) as usize));
            assert(!displays(changes@, (start - 1) as usize));
            if halo.start <= focus.start && window.start > 0 {
                assert(breaks_off(changes@, window.start - 1, focus.start as int));
            }
        }
        if end < usize::MAX {
            assert(!displayed@.contains(end));
            assert(!displays(changes@, end));
            if focus.end <= halo.end && window.end < usize::MAX {
                assert(breaks_off(changes@, focus.end as int, window.end + 1));
            }
        }
    }
    window
}

/// Some line of the range is not displayed.
pub open spec fn breaks_off(changes: Seq<SourceChange>, start: int, end: int) -> bool {
    exists|line: usize| start <= line < end && !#[trigger] displays(changes, line)
}

/// The halo, grown over all lines that are displayed without a gap around the focus.
pub open spec fn is_window(halo: Span, focus: Span, changes: Seq<SourceChange>, window: Span) -> bool {
    &&& window.start <= halo.start
    &&& halo.end <= window.end
    &&& forall|line: usize|
        window.start <= line < halo.start ==> #[trigger] displays(changes, line)
    &&& forall|line: usize| halo.end <= line < window.end ==> #[trigger] displays(changes, line)
    &&& window.start == 0 || breaks_off(changes, window.start - 1, focus.start as int)
    &&& window.end == usize::MAX || breaks_off(changes, focus.end as int, window.end + 1)
}

/// Place source-local focus into current-world geometry for ordering and melding.
///
/// A fragment without any signal has no place.
pub fn place(fragment: Fragment, scene: &PlanScene<'_>, alignment: &LineAlignment<'_>) -> (placed: Option<
    AnchoredChange,
>)
    requires
        fragment.excerpt.fits(*scene),
        alignment.wf(),
        alignment.before_lines == scene.before_count(),
        alignment.after_lines == scene.after_count(),
    ensures
        placed matches Some(change) ==> change.fits(scene.before_count(), scene.after_count())
            && keeps_review(fragment.excerpt.changes@, change.changes@) && change.buoyancy.height
            == fragment.signal.height(),
        placed is None ==> forall|k: int|
            0 <= k < fragment.excerpt.changes@.len() ==> !is_signal(
                #[trigger] fragment.excerpt.changes@[k],
            ),
        placed matches Some(change) ==> is_placed(fragment, *alignment, change),
{
    let ghost before_count = scene.before_count();
    let ghost after_count = scene.after_count();
    let Fragment { signal, excerpt, order_hint } = fragment;
    let Excerpt { coverage, changes } = excerpt;
    let focus = focus_of(&changes, Ghost(before_count), Ghost(after_count));
    if focus.is_empty() {
        return None;
    }
    let order = match order_hint {
        Some(order) => order,
        None => alignment.focus_order(&focus),
    };
    proof {
        if focus.after@.len() > 0 {
            assert(1 <= focus.after@[0] <= alignment.after_lines);
        }
        assert(is_focus_order(*alignment, focus, order) || order_hint is Some);
    }
    let ghost signals = focus;
    let hinted = match order_hint {
        Some(order) => alignment.order_focus(order),
        None => None,
    };
    let lines = match hinted {
        Some(line) => Span { start: line, end: line + 1 },
        None => focus_lines(alignment, &focus),
    };
    let halo = merge_window(lines, signal);
    let window = if signal.receives_context() {
        displayed_window(halo, lines, &changes)
    } else {
        halo
    };
    let context_focus = if !signal.receives_context() {
        SignalFocus::nothing()
    } else {
        match hinted {
            Some(line) => {
                let mut hint = SignalFocus::nothing();
                hint.add_after(line, Ghost(before_count), Ghost(after_count));
                hint
            },
            None => focus,
        }
    };
    let changes = group_rows(changes, Ghost(before_count), Ghost(after_count));
    let change = AnchoredChange {
        buoyancy: signal.buoyancy(),
        coverage,
        changes,
        context_focus,
        order,
        merge_window: window,
    };
    assert(is_focus(fragment.excerpt.changes@, signals));
    proof {
        if alignment.after_lines + 3 < usize::MAX && alignment.before_lines + 3 < usize::MAX {
            lemma_lines_exist(*alignment, signals, lines, hinted is Some);
            assert(signal != Signal::Move ==> is_window(
                halo,
                lines,
                fragment.excerpt.changes@,
                window,
            ));
            assert(melds_within(fragment, *alignment, lines, change.merge_window));
        }
    }
    Some(change)
}

/// Smallest range of the current lines of a focus, or else of those at which its old lines would
/// stand, or of its old lines where the current file is empty.
pub open spec fn are_focus_lines(
    alignment: LineAlignment<'_>,
    focus: SignalFocus,
    lines: Span,
) -> bool {
    if focus.after@.len() > 0 {
        lines.start == focus.after@[0] && lines.end == focus.after@.last() + 1
    } else if alignment.after_lines > 0 {
        alignment.is_anchor_hull(focus.before@, Some(lines))
    } else {
        lines.start == focus.before@[0] && lines.end == focus.before@.last() + 1
    }
}

/// The lines within which a neighbor melds: those around where the fragment stands, three to
/// either side unless it is a move, and all that it displays next to them.
pub open spec fn melds_within(
    fragment: Fragment,
    alignment: LineAlignment<'_>,
    lines: Span,
    window: Span,
) -> bool {
    &&& match fragment.order_hint {
        Some(order) if alignment.after_lines > 0 => lines.start == hint_line(
            order,
            alignment.after_lines as int,
        ) && lines.end == lines.start + 1,
        _ => exists|focus: SignalFocus| #[trigger]
            is_focus(fragment.excerpt.changes@, focus) && focus.fits(
                alignment.before_lines as int,
                alignment.after_lines as int,
            ) && are_focus_lines(alignment, focus, lines),
    }
    &&& if fragment.signal == Signal::Move {
        window.start == lines.start && window.end == lines.end
    } else {
        exists|halo: Span| #[trigger]
            is_window(halo, lines, fragment.excerpt.changes@, window) && halo.start == (
            if lines.start > 3 {
                lines.start - 3
            } else {
                1
            }) && halo.end == lines.end + 3
    }
}

/// The lines where a fragment stands are lines of a file.
proof fn lemma_lines_exist(
    alignment: LineAlignment<'_>,
    focus: SignalFocus,
    lines: Span,
    hinted: bool,
)
    requires
        alignment.wf(),
        focus.fits(alignment.before_lines as int, alignment.after_lines as int),
        focus.has_lines(),
        hinted ==> 1 <= lines.start <= alignment.after_lines && lines.end == lines.start + 1,
        !hinted ==> are_focus_lines(alignment, focus, lines),
    ensures
        1 <= lines.start,
        lines.end <= alignment.after_lines + 1 || lines.end <= alignment.before_lines + 1,
{
    if !hinted {
        if focus.after@.len() > 0 {
            assert(1 <= focus.after@[0] <= alignment.after_lines);
            assert(1 <= focus.after@[focus.after@.len() - 1] <= alignment.after_lines);
        } else if alignment.after_lines > 0 {
            assert(alignment.has_anchor(focus.before@, lines.start as int));
            assert(alignment.has_anchor(focus.before@, lines.end - 1));
        } else {
            assert(1 <= focus.before@[0] <= alignment.before_lines);
            assert(1 <= focus.before@[focus.before@.len() - 1] <= alignment.before_lines);
        }
    }
}

/// Current lines of a focus, or its old lines where the current file is empty.
fn focus_lines(alignment: &LineAlignment<'_>, focus: &SignalFocus) -> (lines: Span)
    requires
        alignment.wf(),
        focus.fits(alignment.before_lines as int, alignment.after_lines as int),
        focus.has_lines(),
    ensures
        lines.start < lines.end,
        are_focus_lines(*alignment, *focus, lines),
{
    match alignment.current_focus(focus) {
        Some(lines) => lines,
        None => {
            proof {
                if focus.after@.len() > 0 {
                    assert(1 <= focus.after@[0] <= alignment.after_lines);
                }
            }
            match line_hull(&focus.before) {
                Some(lines) => lines,
                None => Span { start: 0, end: 1 },
            }
        },
    }
}

/// All changes of a list of anchored changes, in order.
pub open spec fn flattened(changes: Seq<AnchoredChange>) -> Seq<SourceChange>
    decreases changes.len(),
{
    if changes.len() == 0 {
        Seq::empty()
    } else {
        flattened(changes.drop_last()) + changes.last().changes@
    }
}

/// Smallest window that holds both.
pub open spec fn hull_of(left: Span, right: Span) -> Span {
    Span {
        start: if left.start <= right.start {
            left.start
        } else {
            right.start
        },
        end: if left.end >= right.end {
            left.end
        } else {
            right.end
        },
    }
}

/// A group of neighbouring changes: where its first change stands, its merge window, its
/// strongest buoyancy, and its changes in order.
pub struct ChangeGroup {
    pub order: SourceOrder,
    pub window: Span,
    pub height: int,
    pub changes: Seq<SourceChange>,
}

/// A change as a group of its own.
pub open spec fn group_of(change: AnchoredChange) -> ChangeGroup {
    ChangeGroup {
        order: change.order,
        window: change.merge_window,
        height: change.buoyancy.height as int,
        changes: change.changes@,
    }
}

/// Groups of the first changes: a change whose merge window touches that of the last group
/// joins it, and any other starts a new one.
pub open spec fn grouped(changes: Seq<AnchoredChange>, count: int) -> Seq<ChangeGroup>
    decreases count,
{
    if count <= 0 {
        Seq::empty()
    } else {
        let earlier = grouped(changes, count - 1);
        let next = group_of(changes[count - 1]);
        if earlier.len() > 0 && next.window.start <= earlier.last().window.end + 1 {
            let last = earlier.last();
            earlier.update(
                earlier.len() - 1,
                ChangeGroup {
                    order: last.order,
                    window: hull_of(last.window, next.window),
                    height: if last.height >= next.height {
                        last.height
                    } else {
                        next.height
                    },
                    changes: last.changes + next.changes,
                },
            )
        } else {
            earlier.push(next)
        }
    }
}

/// The changes as groups.
pub open spec fn groups_of(changes: Seq<AnchoredChange>) -> Seq<ChangeGroup> {
    Seq::new(changes.len(), |k: int| group_of(changes[k]))
}

/// Groups follow one another with more than one line between their windows.
pub open spec fn groups_apart(groups: Seq<ChangeGroup>) -> bool {
    forall|k: int, l: int|
        0 <= k && l == k + 1 && l < groups.len() ==> (#[trigger] groups[k]).window.end + 1 < (
        #[trigger] groups[l]).window.start
}

/// Changes in source order leave no two neighbouring groups whose windows touch.
pub proof fn grouped_changes_are_apart(changes: Seq<AnchoredChange>, count: int)
    requires
        0 <= count <= changes.len(),
        forall|i: int, j: int|
            0 <= i <= j < changes.len() ==> (#[trigger] changes[i]).merge_window.start <= (
            #[trigger] changes[j]).merge_window.start,
    ensures
        groups_apart(grouped(changes, count)),
        forall|k: int, i: int|
            0 <= k < grouped(changes, count).len() && count <= i < changes.len() ==> (
            #[trigger] grouped(changes, count)[k]).window.start <= (
            #[trigger] changes[i]).merge_window.start,
    decreases count,
{
    if count > 0 {
        grouped_changes_are_apart(changes, count - 1);
        let earlier = grouped(changes, count - 1);
        let groups = grouped(changes, count);
        let next = group_of(changes[count - 1]);
        assert(next.window == changes[count - 1].merge_window);
        if earlier.len() > 0 {
            assert(earlier[earlier.len() - 1].window.start <= changes[count - 1].merge_window.start);
        }
        assert forall|k: int, l: int| 0 <= k && l == k + 1 && l < groups.len() implies (
        #[trigger] groups[k]).window.end + 1 < (#[trigger] groups[l]).window.start by {
            if l < earlier.len() {
                assert(earlier[k].window.end + 1 < earlier[l].window.start);
            }
        }
        assert forall|k: int, i: int| 0 <= k < groups.len() && count <= i < changes.len() implies (
        #[trigger] groups[k]).window.start <= (#[trigger] changes[i]).merge_window.start by {
            if k < earlier.len() {
                assert(earlier[k].window.start <= changes[i].merge_window.start);
            }
            assert(changes[count - 1].merge_window.start <= changes[i].merge_window.start);
        }
    }
}

/// Absorb a later anchored change after source geometry selects neighboring focus.
fn meld(
    earlier: AnchoredChange,
    later: AnchoredChange,
    Ghost(before_count): Ghost<int>,
    Ghost(after_count): Ghost<int>,
) -> (melded: AnchoredChange)
    requires
        earlier.fits(before_count, after_count),
        later.fits(before_count, after_count),
    ensures
        melded.fits(before_count, after_count),
        melded.changes@ == earlier.changes@ + later.changes@,
        melded.order == earlier.order,
        melded.buoyancy.height == if earlier.buoyancy.height >= later.buoyancy.height {
            earlier.buoyancy.height
        } else {
            later.buoyancy.height
        },
        melded.coverage.before == included(earlier.coverage.before, later.coverage.before),
        melded.coverage.after == included(earlier.coverage.after, later.coverage.after),
        melded.merge_window == hull_of(earlier.merge_window, later.merge_window),
        holds_both(
            melded.context_focus.before@,
            earlier.context_focus.before@,
            later.context_focus.before@,
        ),
        holds_both(
            melded.context_focus.after@,
            earlier.context_focus.after@,
            later.context_focus.after@,
        ),
{
    let AnchoredChange {
        buoyancy,
        coverage,
        changes,
        context_focus,
        order,
        merge_window: window,
    } = earlier;
    let mut changes = changes;
    let mut context_focus = context_focus;
    let mut more = later.changes;
    let ghost first = changes@;
    let ghost second = more@;
    let mut before = coverage.before;
    include_range(&mut before, later.coverage.before);
    let mut after = coverage.after;
    include_range(&mut after, later.coverage.after);
    changes.append(&mut more);
    context_focus.merge(later.context_focus, Ghost(before_count), Ghost(after_count));
    proof {
        assert(changes@ =~= first + second);
        assert forall|k: int| 0 <= k < changes@.len() implies change_fits(
            #[trigger] changes@[k],
            before_count,
            after_count,
        ) by {
            if k < first.len() {
                assert(changes@[k] == first[k]);
            } else {
                assert(changes@[k] == second[k - first.len()]);
            }
        }
    }
    AnchoredChange {
        buoyancy: buoyancy.stronger(later.buoyancy),
        coverage: LineCoverage { before, after },
        changes,
        context_focus,
        order,
        merge_window: Span {
            start: if window.start <= later.merge_window.start {
                window.start
            } else {
                later.merge_window.start
            },
            end: if window.end >= later.merge_window.end {
                window.end
            } else {
                later.merge_window.end
            },
        },
    }
}

/// The group shows every change of the anchored change, and asks for context wherever it does.
pub open spec fn holds_change(group: AnchoredChange, change: AnchoredChange) -> bool {
    &&& forall|part: SourceChange|
        change.changes@.contains(part) ==> #[trigger] group.changes@.contains(part)
    &&& forall|line: usize|
        change.context_focus.before@.contains(line)
            ==> #[trigger] group.context_focus.before@.contains(line)
    &&& forall|line: usize|
        change.context_focus.after@.contains(line)
            ==> #[trigger] group.context_focus.after@.contains(line)
}

/// Some group holds the change.
pub open spec fn is_held(groups: Seq<AnchoredChange>, change: AnchoredChange) -> bool {
    exists|g: int| 0 <= g < groups.len() && #[trigger] holds_change(groups[g], change)
}

/// Melding keeps the changes and the focus of both.
proof fn lemma_melded_holds(earlier: AnchoredChange, later: AnchoredChange, melded: AnchoredChange)
    requires
        melded.changes@ == earlier.changes@ + later.changes@,
        holds_both(
            melded.context_focus.before@,
            earlier.context_focus.before@,
            later.context_focus.before@,
        ),
        holds_both(
            melded.context_focus.after@,
            earlier.context_focus.after@,
            later.context_focus.after@,
        ),
    ensures
        holds_change(melded, earlier),
        holds_change(melded, later),
{
    assert forall|part: SourceChange|
        earlier.changes@.contains(part) || later.changes@.contains(
            part,
        ) implies #[trigger] melded.changes@.contains(part) by {
        if earlier.changes@.contains(part) {
            let k = choose|k: int| 0 <= k < earlier.changes@.len() && earlier.changes@[k] == part;
            assert(melded.changes@[k] == part);
        } else {
            let k = choose|k: int| 0 <= k < later.changes@.len() && later.changes@[k] == part;
            assert(melded.changes@[earlier.changes@.len() + k] == part);
        }
    }
}

/// Groups that only grew hold what they held.
proof fn lemma_still_held(
    earlier: Seq<AnchoredChange>,
    later: Seq<AnchoredChange>,
    changes: Seq<AnchoredChange>,
    count: int,
)
    requires
        0 <= count <= changes.len(),
        earlier.len() <= later.len(),
        forall|g: int|
            0 <= g < earlier.len() ==> holds_change(later[g], #[trigger] earlier[g]),
        forall|i: int| 0 <= i < count ==> is_held(earlier, #[trigger] changes[i]),
    ensures
        forall|i: int| 0 <= i < count ==> is_held(later, #[trigger] changes[i]),
{
    assert forall|i: int| 0 <= i < count implies is_held(later, #[trigger] changes[i]) by {
        assert(is_held(earlier, changes[i]));
        let g = choose|g: int| 0 <= g < earlier.len() && #[trigger] holds_change(
            earlier[g],
            changes[i],
        );
        assert(holds_change(later[g], earlier[g]));
        assert(holds_change(later[g], changes[i]));
    }
}

/// Context halos that touch, or would omit only one row, form one visual hunk.
///
/// Nothing is lost, and the order of changes stays.
pub fn coalesce_changes(
    changes: Vec<AnchoredChange>,
    Ghost(before_count): Ghost<int>,
    Ghost(after_count): Ghost<int>,
) -> (coalesced: Vec<AnchoredChange>)
    requires
        all_fit(changes@, before_count, after_count),
    ensures
        all_fit(coalesced@, before_count, after_count),
        flattened(coalesced@) == flattened(changes@),
        coalesced@.len() <= changes@.len(),
        groups_of(coalesced@) == grouped(changes@, changes@.len() as int),
        forall|i: int| 0 <= i < changes@.len() ==> is_held(coalesced@, #[trigger] changes@[i]),
{
    let ghost whole = changes@;
    let mut pending = reversed(changes);
    let mut coalesced: Vec<AnchoredChange> = Vec::new();
    assert(groups_of(coalesced@) =~= grouped(whole, 0));
    assert(whole.take(0) =~= Seq::<AnchoredChange>::empty());
    while pending.len() > 0
        invariant
            all_fit(whole, before_count, after_count),
            pending@.len() <= whole.len(),
            forall|k: int|
                0 <= k < pending@.len() ==> (#[trigger] pending@[k]) == whole[whole.len() - 1 - k],
            all_fit(coalesced@, before_count, after_count),
            flattened(coalesced@) == flattened(whole.take(whole.len() - pending@.len())),
            coalesced@.len() + pending@.len() <= whole.len(),
            groups_of(coalesced@) == grouped(whole, whole.len() - pending@.len()),
            forall|i: int|
                0 <= i < whole.len() - pending@.len() ==> is_held(coalesced@, #[trigger] whole[i]),
        decreases pending@.len(),
    {
        let ghost count = pending@.len();
        let ghost at = whole.len() - count;
        let ghost earlier = coalesced@;
        let change = pending.pop().unwrap();
        proof {
            assert(change == whole[at as int]);
            assert(whole[at as int].fits(before_count, after_count));
            assert(whole.take(at + 1).drop_last() =~= whole.take(at as int));
            assert(whole.take(at + 1).last() == change);
        }
        let touches = coalesced.len() > 0 && merge_windows_touch(
            &coalesced[coalesced.len() - 1].merge_window,
            &change.merge_window,
        );
        if touches {
            let previous = coalesced.pop().unwrap();
            assert(earlier[earlier.len() - 1].fits(before_count, after_count));
            let ghost added = change.changes@;
            let melded = meld(previous, change, Ghost(before_count), Ghost(after_count));
            coalesced.push(melded);
            proof {
                assert(coalesced@.drop_last() =~= earlier.drop_last());
                assert(flattened(coalesced@) =~= flattened(earlier) + added);
                assert(groups_of(earlier).last() == group_of(previous));
                assert(groups_of(coalesced@) =~= grouped(whole, at + 1));
                lemma_melded_holds(previous, change, melded);
                lemma_still_held(earlier, coalesced@, whole, at as int);
                assert(holds_change(coalesced@[earlier.len() - 1], whole[at as int]));
            }
        } else {
            coalesced.push(change);
            proof {
                assert(coalesced@.drop_last() =~= earlier);
                if earlier.len() > 0 {
                    assert(groups_of(earlier).last() == group_of(earlier.last()));
                }
                assert(groups_of(coalesced@) =~= grouped(whole, at + 1));
                lemma_still_held(earlier, coalesced@, whole, at as int);
                assert(holds_change(coalesced@[earlier.len() as int], whole[at as int]));
            }
        }
    }
    assert(whole.take(whole.len() as int) =~= whole);
    coalesced
}

} // verus!

//! Pretty-hunk planning over neutral correspondence facts.
//!
//! Every signal except a move grows a three-line context halo. Syntax ancestors
//! contribute hierarchy breadcrumbs with display-only halos that do not widen
//! the physical signal focus used to meld neighboring changes.

pub mod anchored;
pub mod display;
pub mod edits;
pub mod excerpts;
pub mod facts;
pub mod order;
pub mod ownership;
pub mod payload;
pub mod placement;
pub mod regions;
pub mod rows;
pub mod scene;
pub mod selection;
pub mod sequence;
pub mod sorting;
pub mod tally;
pub mod units;

use crate::change::Signal;
use crate::correspondence::geometry::row_span;
use crate::correspondence::lines::{is_exact, link_fits};
use crate::correspondence::builder::is_flat;
use crate::correspondence::links::{LineFallback, LineLink, MatchedUnit, UnitEdit};
use crate::correspondence::{all_rows, has_matching, Correspondence};
use crate::frontend::line::{is_line_leaf, is_line_tree};
use crate::plan::anchored::{
    all_fit, coalesce_changes, flattened, grouped, groups_of, is_held, is_placed, is_signal,
    keeps_review, lemma_keeps_chain, lemma_keeps_members, place, place_of, removed_by, removes,
    signaled_by, signals, AnchoredChange,
};
use crate::plan::display::{
    complete_context_halos, complete_display_gaps, context_once, deduplicate_context_rows,
    displays_wanted, focus_haloed, lemma_haloed_more,
};
use crate::plan::excerpts::{
    displayed_by, displays, law_no_reflow_without_matched_subtrees, law_regions_own_rows_once,
    new_row_accounted, old_row_accounted, region_drawn, region_explained, shown_somewhere,
    shows_fact, shows_replacement,
};
use crate::plan::facts::{after_of, before_of, fact_ok, AnchorBasis, LineFact};
use crate::plan::order::LineAlignment;
use crate::plan::payload::{
    comment_unlinked, comments_shown, current_line_shown, payload_rows_shown, row_linked,
    row_unpartnered, unit_rows_accounted,
};
use crate::plan::regions::is_retained;
use crate::plan::rows::{
    coverage_fits, is_replacement, shows_row, side_rows, LineEdit, UnitRow,
};
use crate::plan::scene::{AnchorFacts, PlanScene};
use crate::plan::selection::{row_shown, row_shown_somewhere};
use crate::plan::sequence::{
    is_ordered, lemma_picked_ordered, order_changes, picks_in_order, ReviewSequence,
};
use crate::plan::sorting::{items_ascend, key_less, sorted_by_keys, SortKey};
use crate::plan::tally::{
    anchored_tally, anchored_weight, change_weight, hunk_weight, hunks_tally, lemma_tally_plain,
    claims_in, excerpts_tally, lemma_total_holds, lemma_total_holds_two, lemma_total_join,
    lemma_total_nothing, lemma_total_permuted, lemma_total_push, tally, total, Claim,
};
use crate::plan::units::{
    all_signal, edit_planned, excerpts_of, file_planned, fragments_fit, is_moved, is_run, is_tall,
    part_planned, parts_planned, plan_units, plan_whole_file_lines, region_planned,
    unit_edit_planned, unit_planned, Fragment,
};
use crate::review::{changes_fit, RefinedHunk, SourceChange};
use crate::span::Span;
use crate::syntax::{ReviewMode, SyntaxPair, SyntaxTree};
use crate::text::{lemma_encode_injective, same_str};
use vstd::prelude::*;

verus! {

/// Some anchored change replaces the old line.
pub open spec fn any_removes(list: Seq<AnchoredChange>, line: usize) -> bool {
    exists|k: int| 0 <= k < list.len() && removes((#[trigger] list[k]).changes@, line)
}

/// Some anchored change signals the current line.
pub open spec fn any_signals(list: Seq<AnchoredChange>, line: usize) -> bool {
    exists|k: int| 0 <= k < list.len() && signals((#[trigger] list[k]).changes@, line)
}

/// Some hunk replaces the old line.
pub open spec fn hunks_remove(hunks: Seq<RefinedHunk>, line: usize) -> bool {
    exists|k: int| 0 <= k < hunks.len() && removes((#[trigger] hunks[k]).changes@, line)
}

/// Some hunk signals the current line.
pub open spec fn hunks_signal(hunks: Seq<RefinedHunk>, line: usize) -> bool {
    exists|k: int| 0 <= k < hunks.len() && signals((#[trigger] hunks[k]).changes@, line)
}

/// Some fragment replaces the old line.
pub open spec fn fragments_remove(fragments: Seq<Fragment>, line: usize) -> bool {
    exists|k: int|
        0 <= k < fragments.len() && removes((#[trigger] fragments[k]).excerpt.changes@, line)
}

/// Some fragment signals the current line.
pub open spec fn fragments_signal(fragments: Seq<Fragment>, line: usize) -> bool {
    exists|k: int|
        0 <= k < fragments.len() && signals((#[trigger] fragments[k]).excerpt.changes@, line)
}

/// Lists with the same members show the same.
proof fn lemma_same_members(left: Seq<AnchoredChange>, right: Seq<AnchoredChange>)
    requires
        forall|change: AnchoredChange| left.contains(change) ==> #[trigger] right.contains(change),
    ensures
        forall|line: usize| any_removes(left, line) ==> #[trigger] any_removes(right, line),
        forall|line: usize| any_signals(left, line) ==> #[trigger] any_signals(right, line),
{
    assert forall|line: usize| any_removes(left, line) implies #[trigger] any_removes(
        right,
        line,
    ) by {
        let k = choose|k: int| 0 <= k < left.len() && removes((#[trigger] left[k]).changes@, line);
        assert(left.contains(left[k]));
        assert(right.contains(left[k]));
        let i = choose|i: int| 0 <= i < right.len() && right[i] == left[k];
        assert(removes(right[i].changes@, line));
    }
    assert forall|line: usize| any_signals(left, line) implies #[trigger] any_signals(
        right,
        line,
    ) by {
        let k = choose|k: int| 0 <= k < left.len() && signals((#[trigger] left[k]).changes@, line);
        assert(left.contains(left[k]));
        assert(right.contains(left[k]));
        let i = choose|i: int| 0 <= i < right.len() && right[i] == left[k];
        assert(signals(right[i].changes@, line));
    }
}

/// Changes of a list show what the list shows.
proof fn lemma_flattened(list: Seq<AnchoredChange>, line: usize)
    ensures
        removes(flattened(list), line) <==> any_removes(list, line),
        signals(flattened(list), line) <==> any_signals(list, line),
    decreases list.len(),
{
    if list.len() > 0 {
        let rest = list.drop_last();
        let last = list.last().changes@;
        lemma_flattened(rest, line);
        let front = flattened(rest);
        let all = flattened(list);
        assert(all == front + last);
        lemma_concat_shows(front, last, line);
        if any_removes(list, line) {
            let k = choose|k: int|
                0 <= k < list.len() && removes((#[trigger] list[k]).changes@, line);
            if k < rest.len() {
                assert(rest[k] == list[k]);
            }
        }
        if any_removes(rest, line) {
            let k = choose|k: int|
                0 <= k < rest.len() && removes((#[trigger] rest[k]).changes@, line);
            assert(list[k] == rest[k]);
        }
        if any_signals(list, line) {
            let k = choose|k: int|
                0 <= k < list.len() && signals((#[trigger] list[k]).changes@, line);
            if k < rest.len() {
                assert(rest[k] == list[k]);
            }
        }
        if any_signals(rest, line) {
            let k = choose|k: int|
                0 <= k < rest.len() && signals((#[trigger] rest[k]).changes@, line);
            assert(list[k] == rest[k]);
        }
        assert(list[list.len() - 1].changes@ == last);
    }
}

/// Two lists in a row show what either shows.
proof fn lemma_concat_shows(
    front: Seq<crate::review::SourceChange>,
    back: Seq<crate::review::SourceChange>,
    line: usize,
)
    ensures
        removes(front + back, line) <==> removes(front, line) || removes(back, line),
        signals(front + back, line) <==> signals(front, line) || signals(back, line),
{
    let all = front + back;
    if removes(all, line) {
        let k = choose|k: int| 0 <= k < all.len() && removed_by(#[trigger] all[k], line);
        if k < front.len() {
            assert(removed_by(front[k], line));
        } else {
            assert(removed_by(back[k - front.len()], line));
        }
    }
    if removes(front, line) {
        let k = choose|k: int| 0 <= k < front.len() && removed_by(#[trigger] front[k], line);
        assert(removed_by(all[k], line));
    }
    if removes(back, line) {
        let k = choose|k: int| 0 <= k < back.len() && removed_by(#[trigger] back[k], line);
        assert(removed_by(all[front.len() + k], line));
    }
    if signals(all, line) {
        let k = choose|k: int| 0 <= k < all.len() && signaled_by(#[trigger] all[k], line);
        if k < front.len() {
            assert(signaled_by(front[k], line));
        } else {
            assert(signaled_by(back[k - front.len()], line));
        }
    }
    if signals(front, line) {
        let k = choose|k: int| 0 <= k < front.len() && signaled_by(#[trigger] front[k], line);
        assert(signaled_by(all[k], line));
    }
    if signals(back, line) {
        let k = choose|k: int| 0 <= k < back.len() && signaled_by(#[trigger] back[k], line);
        assert(signaled_by(all[front.len() + k], line));
    }
}

/// The changes stand for the fragments with something to signal, in order.
pub open spec fn are_placed(
    alignment: LineAlignment<'_>,
    fragments: Seq<Fragment>,
    placed: Seq<AnchoredChange>,
    sources: Seq<int>,
) -> bool {
    &&& sources.len() == placed.len()
    &&& forall|k: int|
        0 <= k < placed.len() ==> 0 <= (#[trigger] sources[k]) < fragments.len() && keeps_review(
            fragments[sources[k]].excerpt.changes@,
            placed[k].changes@,
        ) && placed[k].buoyancy.height == fragments[sources[k]].signal.height() && is_placed(
            fragments[sources[k]],
            alignment,
            placed[k],
        )
    &&& forall|k: int, l: int|
        0 <= k < l < sources.len() ==> (#[trigger] sources[k]) < (#[trigger] sources[l])
    &&& forall|i: int|
        0 <= i < fragments.len() && !sources.contains(i) ==> shows_nothing(#[trigger] fragments[i])
}

/// The first fragments are placed.
spec fn placed_to(
    alignment: LineAlignment<'_>,
    fragments: Seq<Fragment>,
    placed: Seq<AnchoredChange>,
    sources: Seq<int>,
    count: int,
) -> bool {
    &&& sources.len() == placed.len()
    &&& forall|k: int|
        0 <= k < placed.len() ==> 0 <= (#[trigger] sources[k]) < count && keeps_review(
            fragments[sources[k]].excerpt.changes@,
            placed[k].changes@,
        ) && placed[k].buoyancy.height == fragments[sources[k]].signal.height() && is_placed(
            fragments[sources[k]],
            alignment,
            placed[k],
        )
    &&& forall|k: int, l: int|
        0 <= k < l < sources.len() ==> (#[trigger] sources[k]) < (#[trigger] sources[l])
    &&& forall|i: int|
        0 <= i < count && !sources.contains(i) ==> shows_nothing(#[trigger] fragments[i])
}

proof fn lemma_placed_more(
    alignment: LineAlignment<'_>,
    fragments: Seq<Fragment>,
    placed: Seq<AnchoredChange>,
    sources: Seq<int>,
    at: int,
    change: AnchoredChange,
)
    requires
        0 <= at < fragments.len(),
        placed_to(alignment, fragments, placed, sources, at),
        keeps_review(fragments[at].excerpt.changes@, change.changes@),
        change.buoyancy.height == fragments[at].signal.height(),
        is_placed(fragments[at], alignment, change),
    ensures
        placed_to(alignment, fragments, placed.push(change), sources.push(at), at + 1),
{
    let more = sources.push(at);
    assert forall|i: int| 0 <= i < at + 1 && !more.contains(i) implies shows_nothing(
        #[trigger] fragments[i],
    ) by {
        assert(more[sources.len() as int] == at);
        if sources.contains(i) {
            let k = choose|k: int| 0 <= k < sources.len() && sources[k] == i;
            assert(more[k] == i);
        }
    }
}

/// The fragment signals nothing.
pub open spec fn shows_nothing(fragment: Fragment) -> bool {
    forall|k: int|
        0 <= k < fragment.excerpt.changes@.len() ==> !is_signal(
            #[trigger] fragment.excerpt.changes@[k],
        )
}

/// The hunks finish changes in the same order, and leave out only what shows nothing.
pub open spec fn are_finished(
    alignment: LineAlignment<'_>,
    sequence: Option<ReviewSequence>,
    changes: Seq<AnchoredChange>,
    hunks: Seq<RefinedHunk>,
    picks: Seq<int>,
) -> bool {
    &&& picks.len() == hunks.len()
    &&& forall|k: int|
        0 <= k < hunks.len() ==> 0 <= (#[trigger] picks[k]) < changes.len() && keeps_review(
            changes[picks[k]].changes@,
            hunks[k].changes@,
        ) && focus_haloed(alignment, changes[picks[k]].context_focus, hunks[k].changes@)
            && is_ordered(hunks[k].changes@, sequence, alignment) && displays_wanted(
            alignment,
            changes[picks[k]].context_focus,
            changes[picks[k]].changes@,
            hunks[k].changes@,
        )
    &&& forall|k: int, l: int|
        0 <= k < l < picks.len() ==> (#[trigger] picks[k]) < (#[trigger] picks[l])
}

/// The first changes that show anything are finished.
pub open spec fn finishes_to(changes: Seq<AnchoredChange>, picks: Seq<int>, count: int) -> bool {
    forall|i: int|
        0 <= i < count && !picks.contains(i) ==> hides_nothing(#[trigger] changes[i])
}

/// The change replaces and signals no line.
pub open spec fn hides_nothing(change: AnchoredChange) -> bool {
    &&& forall|line: usize| !#[trigger] removes(change.changes@, line)
    &&& forall|line: usize| !#[trigger] signals(change.changes@, line)
}

/// How fragments become hunks: each is placed where it stands, neighbours whose windows touch
/// meld in source order, and the groups come strongest first.
pub open spec fn is_assembly(
    alignment: LineAlignment<'_>,
    sequence: Option<ReviewSequence>,
    fragments: Seq<Fragment>,
    placed: Seq<AnchoredChange>,
    sources: Seq<int>,
    sorted: Seq<AnchoredChange>,
    melded: Seq<AnchoredChange>,
    ordered: Seq<AnchoredChange>,
    hunks: Seq<RefinedHunk>,
    picks: Seq<int>,
) -> bool {
    &&& are_placed(alignment, fragments, placed, sources)
    &&& same_members(placed, sorted)
    &&& items_ascend(sorted, |change: AnchoredChange| coalescing_key(change))
    &&& groups_of(melded) == grouped(sorted, sorted.len() as int)
    &&& forall|i: int| 0 <= i < sorted.len() ==> is_held(melded, #[trigger] sorted[i])
    &&& same_members(melded, ordered)
    &&& items_ascend(ordered, |change: AnchoredChange| presentation_key(change))
    &&& are_finished(alignment, sequence, ordered, hunks, picks)
    &&& finishes_to(ordered, picks, ordered.len() as int)
}

/// Both lists hold the same changes.
pub open spec fn same_members(left: Seq<AnchoredChange>, right: Seq<AnchoredChange>) -> bool {
    left.len() == right.len() && forall|change: AnchoredChange| #[trigger]
        right.contains(change) <==> left.contains(change)
}

/// The hunks are assembled from the fragments.
pub open spec fn are_assembled(
    alignment: LineAlignment<'_>,
    sequence: Option<ReviewSequence>,
    fragments: Seq<Fragment>,
    hunks: Seq<RefinedHunk>,
) -> bool {
    exists|
        placed: Seq<AnchoredChange>,
        sources: Seq<int>,
        sorted: Seq<AnchoredChange>,
        melded: Seq<AnchoredChange>,
        ordered: Seq<AnchoredChange>,
        picks: Seq<int>,
    | #[trigger]
        is_assembly(
            alignment,
            sequence,
            fragments,
            placed,
            sources,
            sorted,
            melded,
            ordered,
            hunks,
            picks,
        )
}

/// Hunks come by buoyancy: those that hold an edit before those of moves, wiring, and reflow.
pub proof fn hunks_come_strongest_first(
    alignment: LineAlignment<'_>,
    sequence: Option<ReviewSequence>,
    fragments: Seq<Fragment>,
    placed: Seq<AnchoredChange>,
    sources: Seq<int>,
    sorted: Seq<AnchoredChange>,
    melded: Seq<AnchoredChange>,
    ordered: Seq<AnchoredChange>,
    hunks: Seq<RefinedHunk>,
    picks: Seq<int>,
    first: int,
    second: int,
)
    requires
        is_assembly(
            alignment,
            sequence,
            fragments,
            placed,
            sources,
            sorted,
            melded,
            ordered,
            hunks,
            picks,
        ),
        0 <= first < second < hunks.len(),
        forall|k: int| 0 <= k < ordered.len() ==> (#[trigger] ordered[k]).buoyancy.height <= 3,
    ensures
        ordered[picks[first]].buoyancy.height >= ordered[picks[second]].buoyancy.height,
{
    assert(picks[first] < picks[second]);
    let key = |change: AnchoredChange| presentation_key(change);
    assert(!key_less(key(ordered[picks[second]]), key(ordered[picks[first]])));
}

/// How often the fragments make the claim.
pub open spec fn fragments_tally(fragments: Seq<Fragment>, claim: Claim) -> nat {
    total(fragments, fragment_weight(claim))
}

pub open spec fn fragment_weight(claim: Claim) -> spec_fn(Fragment) -> nat {
    |fragment: Fragment| tally(fragment.excerpt.changes@, claim)
}

/// What signals nothing claims nothing.
proof fn lemma_signals_nothing(changes: Seq<SourceChange>, claim: Claim)
    requires
        forall|k: int| 0 <= k < changes.len() ==> !is_signal(#[trigger] changes[k]),
    ensures
        tally(changes, claim) == 0,
{
    lemma_total_nothing(changes, change_weight(claim));
}

/// What the fragments claim, the hunks claim as often: nothing is shown twice on the way, nothing
/// is lost, and nothing new is marked.
pub open spec fn claims_kept(fragments: Seq<Fragment>, hunks: Seq<RefinedHunk>) -> bool {
    forall|claim: Claim| #[trigger]
        hunks_tally(hunks, claim) == fragments_tally(fragments, claim)
}

/// A joined list claims what its parts claim.
proof fn lemma_flattened_tally(list: Seq<AnchoredChange>, claim: Claim)
    ensures
        tally(flattened(list), claim) == anchored_tally(list, claim),
    decreases list.len(),
{
    if list.len() > 0 {
        lemma_flattened_tally(list.drop_last(), claim);
        lemma_total_join(
            flattened(list.drop_last()),
            list.last().changes@,
            change_weight(claim),
        );
    }
}

/// Place all fragments.
fn place_fragments(fragments: Vec<Fragment>, scene: &PlanScene<'_>, alignment: &LineAlignment<'_>) -> (
    placed: (Vec<AnchoredChange>, Ghost<Seq<int>>))
    requires
        fragments_fit(*scene, fragments@),
        alignment.wf(),
        alignment.before_lines == scene.before_count(),
        alignment.after_lines == scene.after_count(),
    ensures
        all_fit(placed.0@, scene.before_count(), scene.after_count()),
        forall|line: usize|
            fragments_remove(fragments@, line) ==> #[trigger] any_removes(placed.0@, line),
        forall|line: usize|
            fragments_signal(fragments@, line) ==> #[trigger] any_signals(placed.0@, line),
        are_placed(*alignment, fragments@, placed.0@, placed.1@),
        forall|claim: Claim| #[trigger]
            anchored_tally(placed.0@, claim) == fragments_tally(fragments@, claim),
{
    let ghost whole = fragments@;
    let mut pending = crate::plan::anchored::reversed(fragments);
    let mut placed: Vec<AnchoredChange> = Vec::new();
    let ghost mut sources: Seq<int> = Seq::empty();
    while pending.len() > 0
        invariant
            fragments_fit(*scene, whole),
            alignment.wf(),
            alignment.before_lines == scene.before_count(),
            alignment.after_lines == scene.after_count(),
            pending@.len() <= whole.len(),
            forall|k: int|
                0 <= k < pending@.len() ==> (#[trigger] pending@[k]) == whole[whole.len() - 1 - k],
            all_fit(placed@, scene.before_count(), scene.after_count()),
            forall|line: usize|
                fragments_remove(whole.take(whole.len() - pending@.len()), line)
                    ==> #[trigger] any_removes(placed@, line),
            forall|line: usize|
                fragments_signal(whole.take(whole.len() - pending@.len()), line)
                    ==> #[trigger] any_signals(placed@, line),
            placed_to(*alignment, whole, placed@, sources, whole.len() - pending@.len()),
            forall|claim: Claim| #[trigger]
                anchored_tally(placed@, claim) == fragments_tally(
                    whole.take(whole.len() - pending@.len()),
                    claim,
                ),
        decreases pending@.len(),
    {
        let ghost at = whole.len() - pending@.len();
        let ghost earlier = placed@;
        let fragment = pending.pop().unwrap();
        let ghost shown = fragment.excerpt.changes@;
        assert(fragment == whole[at as int]);
        assert(whole[at as int].excerpt.fits(*scene));
        match place(fragment, scene, alignment) {
            Some(change) => {
                placed.push(change);
                proof {
                    lemma_placed_more(*alignment, whole, earlier, sources, at as int, change);
                    sources = sources.push(at as int);
                }
            },
            None => {},
        }
        proof {
            let shorter = whole.take(at as int);
            let longer = whole.take(at + 1);
            assert(longer[at as int] == whole[at as int]);
            assert forall|claim: Claim| #[trigger]
                anchored_tally(placed@, claim) == fragments_tally(longer, claim) by {
                assert(anchored_tally(earlier, claim) == fragments_tally(shorter, claim));
                assert(longer =~= shorter.push(whole[at as int]));
                lemma_total_push(shorter, whole[at as int], fragment_weight(claim));
                if placed@.len() > earlier.len() {
                    let change = placed@[earlier.len() as int];
                    assert(placed@ =~= earlier.push(change));
                    lemma_total_push(earlier, change, anchored_weight(claim));
                    assert(tally(change.changes@, claim) == tally(shown, claim));
                } else {
                    assert(placed@ =~= earlier);
                    lemma_signals_nothing(shown, claim);
                }
            }
            assert forall|line: usize| fragments_remove(
                longer,
                line,
            ) implies #[trigger] any_removes(placed@, line) by {
                let k = choose|k: int|
                    0 <= k < longer.len() && removes(
                        (#[trigger] longer[k]).excerpt.changes@,
                        line,
                    );
                if k < at {
                    assert(removes(shorter[k].excerpt.changes@, line));
                    assert(any_removes(earlier, line));
                    let i = choose|i: int|
                        0 <= i < earlier.len() && removes((#[trigger] earlier[i]).changes@, line);
                    assert(placed@[i] == earlier[i]);
                } else {
                    let i = choose|i: int|
                        0 <= i < shown.len() && removed_by(#[trigger] shown[i], line);
                    assert(is_signal(shown[i]));
                    assert(removes(placed@[placed@.len() - 1].changes@, line));
                }
            }
            assert forall|line: usize| fragments_signal(
                longer,
                line,
            ) implies #[trigger] any_signals(placed@, line) by {
                let k = choose|k: int|
                    0 <= k < longer.len() && signals(
                        (#[trigger] longer[k]).excerpt.changes@,
                        line,
                    );
                if k < at {
                    assert(signals(shorter[k].excerpt.changes@, line));
                    assert(any_signals(earlier, line));
                    let i = choose|i: int|
                        0 <= i < earlier.len() && signals((#[trigger] earlier[i]).changes@, line);
                    assert(placed@[i] == earlier[i]);
                } else {
                    let i = choose|i: int|
                        0 <= i < shown.len() && signaled_by(#[trigger] shown[i], line);
                    assert(is_signal(shown[i]));
                    assert(signals(placed@[placed@.len() - 1].changes@, line));
                }
            }
        }
    }
    assert(whole.take(whole.len() as int) =~= whole);
    (placed, Ghost(sources))
}

/// Key that puts changes in source order: gap, place in the gap, then the stronger signal.
pub open spec fn coalescing_key(change: AnchoredChange) -> SortKey {
    SortKey {
        first: change.place().0,
        second: change.place().1,
        third: (3 - change.buoyancy.height) as usize,
        fourth: 0,
    }
}

/// Key that puts structural edits first, then moves, compact source wiring, and pure reflow.
pub open spec fn presentation_key(change: AnchoredChange) -> SortKey {
    SortKey {
        first: (3 - change.buoyancy.height) as usize,
        second: change.place().0,
        third: change.place().1,
        fourth: 0,
    }
}

/// Sort anchored changes for melding or for display.
fn sort_changes(
    changes: Vec<AnchoredChange>,
    for_display: bool,
    Ghost(before_count): Ghost<int>,
    Ghost(after_count): Ghost<int>,
) -> (sorted: Vec<AnchoredChange>)
    requires
        all_fit(changes@, before_count, after_count),
    ensures
        all_fit(sorted@, before_count, after_count),
        forall|change: AnchoredChange| #[trigger]
            sorted@.contains(change) <==> changes@.contains(change),
        sorted@.len() == changes@.len(),
        for_display ==> items_ascend(sorted@, |change: AnchoredChange| presentation_key(change)),
        !for_display ==> items_ascend(sorted@, |change: AnchoredChange| coalescing_key(change)),
        sorted@.to_multiset() == changes@.to_multiset(),
{
    let ghost whole = changes@;
    let mut keys: Vec<SortKey> = Vec::new();
    let mut index: usize = 0;
    let ghost key = |change: AnchoredChange|
        if for_display {
            presentation_key(change)
        } else {
            coalescing_key(change)
        };
    while index < changes.len()
        invariant
            all_fit(changes@, before_count, after_count),
            index <= changes@.len(),
            keys@.len() == index,
            key == (|change: AnchoredChange|
                if for_display {
                    presentation_key(change)
                } else {
                    coalescing_key(change)
                }),
            forall|k: int| 0 <= k < index ==> key(changes@[k]) == (#[trigger] keys@[k]),
        decreases changes@.len() - index,
    {
        let change = &changes[index];
        assert(changes@[index as int].fits(before_count, after_count));
        let (gap, within) = place_of(change.order);
        let depth: usize = match change.buoyancy.height {
            3 => 0,
            2 => 1,
            1 => 2,
            _ => 3,
        };
        keys.push(
            if for_display {
                SortKey::new(depth, gap, within, 0)
            } else {
                SortKey::new(gap, within, depth, 0)
            },
        );
        index += 1;
    }
    let sorted = sorted_by_keys(changes, keys, Ghost(key));
    proof {
        assert forall|k: int| 0 <= k < sorted@.len() implies (#[trigger] sorted@[k]).fits(
            before_count,
            after_count,
        ) by {
            assert(sorted@.contains(sorted@[k]));
            let i = choose|i: int| 0 <= i < whole.len() && whole[i] == sorted@[k];
            assert(whole[i].fits(before_count, after_count));
        }
        assert forall|i: int, j: int| 0 <= i < j < sorted@.len() implies !key_less(
            key(#[trigger] sorted@[j]),
            key(#[trigger] sorted@[i]),
        ) by {}
    }
    sorted
}

/// Everything that a hunk names exists, something is shown, and no context line twice.
pub open spec fn hunk_ok(hunk: RefinedHunk, before_count: int, after_count: int) -> bool {
    &&& changes_fit(hunk.changes@, before_count, after_count)
    &&& coverage_fits(hunk.coverage, before_count, after_count)
    &&& context_once(hunk.changes@)
    &&& hunk.changes@.len() > 0
}

/// Complete a change and order its rows.
fn finish_change(
    change: AnchoredChange,
    sequence: &Option<ReviewSequence>,
    alignment: &LineAlignment<'_>,
    Ghost(count): Ghost<int>,
) -> (hunk: RefinedHunk)
    requires
        alignment.wf(),
        change.fits(alignment.before_lines as int, alignment.after_lines as int),
        count <= usize::MAX,
        sequence matches Some(sequence) ==> sequence.wf(count),
    ensures
        changes_fit(
            hunk.changes@,
            alignment.before_lines as int,
            alignment.after_lines as int,
        ),
        coverage_fits(hunk.coverage, alignment.before_lines as int, alignment.after_lines as int),
        context_once(hunk.changes@),
        keeps_review(change.changes@, hunk.changes@),
        focus_haloed(*alignment, change.context_focus, hunk.changes@),
        is_ordered(hunk.changes@, *sequence, *alignment),
        displays_wanted(*alignment, change.context_focus, change.changes@, hunk.changes@),
{
    let ghost focus = change.context_focus;
    let ghost before_count = alignment.before_lines as int;
    let ghost after_count = alignment.after_lines as int;
    let ghost original = change.changes@;
    let mut change = change;
    if !change.context_focus.is_empty() {
        complete_context_halos(&mut change, alignment);
        let ghost haloed = change.changes@;
        proof {
            assert forall|k: int|
                0 <= k < original.len() && !((#[trigger] original[k]) is Context) && !(
                original[k] is Elision) implies haloed.contains(original[k]) by {
                assert(haloed[k] == original[k]);
            }
            assert forall|claim: Claim| #[trigger] tally(haloed, claim) == tally(
                original,
                claim,
            ) by {
                let added = haloed.skip(original.len() as int);
                assert forall|k: int| 0 <= k < added.len() implies (
                #[trigger] added[k]) is Context || added[k] is Elision by {
                    assert(added[k] == haloed[original.len() + k]);
                }
                lemma_tally_plain(added, claim);
                assert(haloed =~= original + added);
                lemma_total_join(original, added, change_weight(claim));
            }
            lemma_keeps_members(original, haloed);
        }
        change = complete_display_gaps(change, alignment);
        proof {
            lemma_keeps_chain(original, haloed, change.changes@);
            lemma_haloed_more(*alignment, focus, haloed, change.changes@);
        }
    } else {
        proof {
            lemma_keeps_members(original, original);
        }
    }
    let ghost completed = change.changes@;
    let AnchoredChange { coverage, changes, .. } = change;
    let sorted = order_changes(changes, sequence, alignment, Ghost(count));
    proof {
        assert forall|k: int| 0 <= k < sorted@.len() implies crate::review::change_fits(
            #[trigger] sorted@[k],
            before_count,
            after_count,
        ) by {
            assert(sorted@.contains(sorted@[k]));
            let i = choose|i: int| 0 <= i < completed.len() && completed[i] == sorted@[k];
            assert(crate::review::change_fits(completed[i], before_count, after_count));
        }
        assert forall|k: int|
            0 <= k < completed.len() && !((#[trigger] completed[k]) is Context) && !(
            completed[k] is Elision) implies sorted@.contains(completed[k]) by {
            assert(completed.contains(completed[k]));
        }
        assert forall|claim: Claim| #[trigger] tally(sorted@, claim) == tally(completed, claim) by {
            lemma_total_permuted(sorted@, completed, change_weight(claim));
        }
        lemma_keeps_members(completed, sorted@);
        lemma_keeps_chain(original, completed, sorted@);
        assert forall|line: usize| displays(completed, line) implies #[trigger] displays(
            sorted@,
            line,
        ) by {
            let k = choose|k: int|
                0 <= k < completed.len() && displayed_by(#[trigger] completed[k], line);
            assert(completed.contains(completed[k]));
            assert(sorted@.contains(completed[k]));
            let i = choose|i: int| 0 <= i < sorted@.len() && sorted@[i] == completed[k];
            assert(displayed_by(sorted@[i], line));
        }
        lemma_haloed_more(*alignment, focus, completed, sorted@);
    }
    let ghost ordered = sorted@;
    let changes = deduplicate_context_rows(sorted, Ghost(before_count), Ghost(after_count));
    proof {
        lemma_keeps_chain(original, ordered, changes@);
        lemma_haloed_more(*alignment, focus, ordered, changes@);
        let places = choose|places: Seq<int>| #[trigger]
            picks_in_order(ordered, changes@, places);
        lemma_picked_ordered(ordered, changes@, places, *sequence, *alignment);
        assert forall|line: usize| #[trigger] displays(changes@, line) implies displays(
            completed,
            line,
        ) by {
            let k = choose|k: int|
                0 <= k < changes@.len() && displayed_by(#[trigger] changes@[k], line);
            assert(ordered.contains(changes@[k]));
            assert(completed.contains(changes@[k]));
            let i = choose|i: int| 0 <= i < completed.len() && completed[i] == changes@[k];
            assert(displayed_by(completed[i], line));
        }
    }
    RefinedHunk { coverage, changes }
}

/// One more change is finished, or shows nothing.
proof fn lemma_finishes_more(
    changes: Seq<AnchoredChange>,
    fewer: Seq<int>,
    picks: Seq<int>,
    at: int,
    finished: Seq<SourceChange>,
)
    requires
        0 <= at < changes.len(),
        finishes_to(changes, fewer, at),
        keeps_review(changes[at].changes@, finished),
        picks == if finished.len() > 0 {
            fewer.push(at)
        } else {
            fewer
        },
    ensures
        finishes_to(changes, picks, at + 1),
{
    assert forall|i: int| 0 <= i < at + 1 && !picks.contains(i) implies hides_nothing(
        #[trigger] changes[i],
    ) by {
        if i < at {
            if fewer.contains(i) {
                let k = choose|k: int| 0 <= k < fewer.len() && fewer[k] == i;
                assert(picks[k] == i);
            }
        } else {
            if finished.len() > 0 {
                assert(picks[fewer.len() as int] == at);
            }
            assert forall|line: usize| !#[trigger] removes(changes[at].changes@, line) by {
                assert(!removes(finished, line));
            }
            assert forall|line: usize| !#[trigger] signals(changes[at].changes@, line) by {
                assert(!signals(finished, line));
            }
        }
    }
}

/// Finish all changes, in order.
fn finish_changes(
    changes: Vec<AnchoredChange>,
    sequence: &Option<ReviewSequence>,
    alignment: &LineAlignment<'_>,
    Ghost(count): Ghost<int>,
) -> (finished: (Vec<RefinedHunk>, Ghost<Seq<int>>))
    requires
        alignment.wf(),
        all_fit(changes@, alignment.before_lines as int, alignment.after_lines as int),
        count <= usize::MAX,
        sequence matches Some(sequence) ==> sequence.wf(count),
    ensures
        forall|k: int|
            0 <= k < finished.0@.len() ==> hunk_ok(
                #[trigger] finished.0@[k],
                alignment.before_lines as int,
                alignment.after_lines as int,
            ),
        forall|line: usize|
            any_removes(changes@, line) ==> #[trigger] hunks_remove(finished.0@, line),
        forall|line: usize|
            any_signals(changes@, line) ==> #[trigger] hunks_signal(finished.0@, line),
        are_finished(*alignment, *sequence, changes@, finished.0@, finished.1@),
        finishes_to(changes@, finished.1@, changes@.len() as int),
        forall|claim: Claim| #[trigger]
            hunks_tally(finished.0@, claim) == anchored_tally(changes@, claim),
{
    let ghost whole = changes@;
    let mut pending = crate::plan::anchored::reversed(changes);
    let mut hunks: Vec<RefinedHunk> = Vec::new();
    let ghost mut picks: Seq<int> = Seq::empty();
    while pending.len() > 0
        invariant
            alignment.wf(),
            all_fit(whole, alignment.before_lines as int, alignment.after_lines as int),
            count <= usize::MAX,
            sequence matches Some(sequence) ==> sequence.wf(count),
            pending@.len() <= whole.len(),
            forall|k: int|
                0 <= k < pending@.len() ==> (#[trigger] pending@[k]) == whole[whole.len() - 1 - k],
            forall|k: int|
                0 <= k < hunks@.len() ==> hunk_ok(
                    #[trigger] hunks@[k],
                    alignment.before_lines as int,
                    alignment.after_lines as int,
                ),
            forall|line: usize|
                any_removes(whole.take(whole.len() - pending@.len()), line)
                    ==> #[trigger] hunks_remove(hunks@, line),
            forall|line: usize|
                any_signals(whole.take(whole.len() - pending@.len()), line)
                    ==> #[trigger] hunks_signal(hunks@, line),
            are_finished(*alignment, *sequence, whole, hunks@, picks),
            finishes_to(whole, picks, whole.len() - pending@.len()),
            forall|claim: Claim| #[trigger]
                hunks_tally(hunks@, claim) == anchored_tally(
                    whole.take(whole.len() - pending@.len()),
                    claim,
                ),
            forall|k: int|
                0 <= k < picks.len() ==> (#[trigger] picks[k]) < whole.len() - pending@.len(),
        decreases pending@.len(),
    {
        let ghost at = whole.len() - pending@.len();
        let ghost earlier = hunks@;
        let change = pending.pop().unwrap();
        let ghost shown = change.changes@;
        assert(change == whole[at as int]);
        assert(whole[at as int].fits(
            alignment.before_lines as int,
            alignment.after_lines as int,
        ));
        let hunk = finish_change(change, sequence, alignment, Ghost(count));
        let ghost finished = hunk.changes@;
        let nonempty = hunk.changes.len() > 0;
        let ghost fewer = picks;
        if nonempty {
            hunks.push(hunk);
            proof {
                picks = picks.push(at as int);
            }
        }
        proof {
            lemma_finishes_more(whole, fewer, picks, at as int, finished);
        }
        proof {
            let shorter = whole.take(at as int);
            let longer = whole.take(at + 1);
            assert(longer[at as int] == whole[at as int]);
            assert forall|claim: Claim| #[trigger]
                hunks_tally(hunks@, claim) == anchored_tally(longer, claim) by {
                assert(hunks_tally(earlier, claim) == anchored_tally(shorter, claim));
                assert(longer =~= shorter.push(whole[at as int]));
                lemma_total_push(shorter, whole[at as int], anchored_weight(claim));
                assert(tally(finished, claim) == tally(shown, claim));
                if nonempty {
                    let hunk = hunks@[earlier.len() as int];
                    assert(hunks@ =~= earlier.push(hunk));
                    lemma_total_push(earlier, hunk, hunk_weight(claim));
                } else {
                    assert(hunks@ =~= earlier);
                    lemma_tally_plain(finished, claim);
                }
            }
            assert forall|line: usize| any_removes(longer, line) implies #[trigger] hunks_remove(
                hunks@,
                line,
            ) by {
                let k = choose|k: int|
                    0 <= k < longer.len() && removes((#[trigger] longer[k]).changes@, line);
                if k < at {
                    assert(removes(shorter[k].changes@, line));
                    assert(hunks_remove(earlier, line));
                    let i = choose|i: int|
                        0 <= i < earlier.len() && removes((#[trigger] earlier[i]).changes@, line);
                    assert(hunks@[i] == earlier[i]);
                } else {
                    assert(removes(finished, line));
                    assert(removes(hunks@[earlier.len() as int].changes@, line));
                }
            }
            assert forall|line: usize| any_signals(longer, line) implies #[trigger] hunks_signal(
                hunks@,
                line,
            ) by {
                let k = choose|k: int|
                    0 <= k < longer.len() && signals((#[trigger] longer[k]).changes@, line);
                if k < at {
                    assert(signals(shorter[k].changes@, line));
                    assert(hunks_signal(earlier, line));
                    let i = choose|i: int|
                        0 <= i < earlier.len() && signals((#[trigger] earlier[i]).changes@, line);
                    assert(hunks@[i] == earlier[i]);
                } else {
                    assert(signals(finished, line));
                    assert(signals(hunks@[earlier.len() as int].changes@, line));
                }
            }
        }
    }
    assert(whole.take(whole.len() as int) =~= whole);
    (hunks, Ghost(picks))
}

/// Coordinates shared by old and current rows.
pub open spec fn alignment_of<'a>(pair: SyntaxPair, graph: Correspondence) -> LineAlignment<'a> {
    LineAlignment {
        lines: &graph.source.lines,
        endings: &graph.source.line_endings,
        before_lines: pair.before.source.line_seq().len() as usize,
        after_lines: pair.after.source.line_seq().len() as usize,
    }
}

/// Owners of all lines, where rows are ordered by unit.
pub open spec fn is_sequence(
    scene: PlanScene<'_>,
    by_unit: bool,
    sequence: Option<ReviewSequence>,
) -> bool {
    match sequence {
        Some(sequence) => by_unit && sequence.describes(scene),
        None => !by_unit,
    }
}

/// The hunks are assembled from the fragments, their rows ordered by unit unless all units are
/// compared line by line.
pub open spec fn is_review_of(
    pair: SyntaxPair,
    graph: Correspondence,
    anchors: AnchorFacts,
    fragments: Seq<Fragment>,
    hunks: Seq<RefinedHunk>,
) -> bool {
    let scene = PlanScene { pair: &pair, graph: &graph, anchors: &anchors };
    let by_unit = !(all_linewise(pair.before) && all_linewise(pair.after));
    exists|sequence: Option<ReviewSequence>| #[trigger]
        are_assembled(alignment_of(pair, graph), sequence, fragments, hunks) && is_sequence(
            scene,
            by_unit,
            sequence,
        )
}

/// Turn fragments into hunks: place them, meld neighbors, and put strong signals first.
///
/// Whatever a fragment replaces or signals, some hunk does too.
fn assemble(fragments: Vec<Fragment>, scene: &PlanScene<'_>, by_unit: bool) -> (hunks: Vec<
    RefinedHunk,
>)
    requires
        scene.wf(),
        fragments_fit(*scene, fragments@),
    ensures
        forall|k: int|
            0 <= k < hunks@.len() ==> hunk_ok(
                #[trigger] hunks@[k],
                scene.before_count(),
                scene.after_count(),
            ),
        forall|line: usize|
            fragments_remove(fragments@, line) ==> #[trigger] hunks_remove(hunks@, line),
        forall|line: usize|
            fragments_signal(fragments@, line) ==> #[trigger] hunks_signal(hunks@, line),
        exists|sequence: Option<ReviewSequence>| #[trigger]
            are_assembled(
                alignment_of(*scene.pair, *scene.graph),
                sequence,
                fragments@,
                hunks@,
            ) && is_sequence(*scene, by_unit, sequence),
        claims_kept(fragments@, hunks@),
{
    let ghost before_count = scene.before_count();
    let ghost after_count = scene.after_count();
    let ghost given = fragments@;
    let alignment = scene.alignment();
    let sequence = if by_unit {
        Some(ReviewSequence::new(scene))
    } else {
        None
    };
    let (placed, sources) = place_fragments(fragments, scene, &alignment);
    let ghost first = placed@;
    // Geometry is source-ordered so only neighboring context halos can merge.
    let sorted = sort_changes(placed, false, Ghost(before_count), Ghost(after_count));
    let ghost second = sorted@;
    let coalesced = coalesce_changes(sorted, Ghost(before_count), Ghost(after_count));
    let ghost third = coalesced@;
    // Structural-edit buoyancy applies only after nearby auxiliary facts are attached.
    let ordered = sort_changes(coalesced, true, Ghost(before_count), Ghost(after_count));
    let ghost fourth = ordered@;
    proof {
        assert(scene.graph.tree.units.len() <= usize::MAX);
        lemma_same_members(first, second);
        lemma_same_members(third, fourth);
        assert forall|line: usize| any_removes(second, line) implies #[trigger] any_removes(
            third,
            line,
        ) by {
            lemma_flattened(second, line);
            lemma_flattened(third, line);
        }
        assert forall|line: usize| any_signals(second, line) implies #[trigger] any_signals(
            third,
            line,
        ) by {
            lemma_flattened(second, line);
            lemma_flattened(third, line);
        }
    }
    let (hunks, picks) = finish_changes(
        ordered,
        &sequence,
        &alignment,
        Ghost(scene.graph.tree.units@.len() as int),
    );
    proof {
        assert forall|claim: Claim| #[trigger]
            hunks_tally(hunks@, claim) == fragments_tally(given, claim) by {
            assert(anchored_tally(first, claim) == fragments_tally(given, claim));
            lemma_total_permuted(second, first, anchored_weight(claim));
            lemma_flattened_tally(second, claim);
            lemma_flattened_tally(third, claim);
            lemma_total_permuted(fourth, third, anchored_weight(claim));
        }
        assert(alignment == alignment_of(*scene.pair, *scene.graph));
        assert(is_assembly(
            alignment,
            sequence,
            given,
            first,
            sources@,
            second,
            third,
            fourth,
            hunks@,
            picks@,
        ));
        assert(are_assembled(alignment, sequence, given, hunks@));
        assert forall|line: usize| fragments_remove(given, line) implies #[trigger] hunks_remove(
            hunks@,
            line,
        ) by {
            assert(any_removes(first, line));
            assert(any_removes(second, line));
            assert(any_removes(third, line));
            assert(any_removes(fourth, line));
        }
        assert forall|line: usize| fragments_signal(given, line) implies #[trigger] hunks_signal(
            hunks@,
            line,
        ) by {
            assert(any_signals(first, line));
            assert(any_signals(second, line));
            assert(any_signals(third, line));
            assert(any_signals(fourth, line));
        }
    }
    hunks
}

/// The old row equals some current row, terminator included.
pub open spec fn old_row_unchanged(pair: SyntaxPair, row: int) -> bool {
    exists|after: usize|
        link_fits(pair, LineLink { before: row as usize, after }) && #[trigger] is_exact(
            pair,
            LineLink { before: row as usize, after },
        )
}

/// The current row equals some old row, terminator included.
pub open spec fn new_row_unchanged(pair: SyntaxPair, row: int) -> bool {
    exists|before: usize|
        link_fits(pair, LineLink { before, after: row as usize }) && #[trigger] is_exact(
            pair,
            LineLink { before, after: row as usize },
        )
}

/// The old row belongs to a matched subtree.
pub open spec fn old_row_retained(pair: SyntaxPair, graph: Correspondence, row: int) -> bool {
    exists|k: int|
        0 <= k < graph.tree.composites@.len() && row_span(
            pair.before,
            (#[trigger] graph.tree.composites@[k]).before as int,
        ).has(row)
}

/// The current row belongs to a matched subtree.
pub open spec fn new_row_retained(pair: SyntaxPair, graph: Correspondence, row: int) -> bool {
    exists|k: int|
        0 <= k < graph.tree.composites@.len() && row_span(
            pair.after,
            (#[trigger] graph.tree.composites@[k]).after as int,
        ).has(row)
}

/// Some hunk replaces the old row, or nothing needs to: it is unchanged, or its subtree is kept.
pub open spec fn old_row_reviewed(
    pair: SyntaxPair,
    graph: Correspondence,
    hunks: Seq<RefinedHunk>,
    row: int,
) -> bool {
    ||| old_row_unchanged(pair, row)
    ||| old_row_retained(pair, graph, row)
    ||| hunks_remove(hunks, (row + 1) as usize)
}

/// Some hunk signals the current row, or nothing needs to.
pub open spec fn new_row_reviewed(
    pair: SyntaxPair,
    graph: Correspondence,
    hunks: Seq<RefinedHunk>,
    row: int,
) -> bool {
    ||| new_row_unchanged(pair, row)
    ||| new_row_retained(pair, graph, row)
    ||| hunks_signal(hunks, (row + 1) as usize)
}

/// Every row of both spans is reviewed.
pub open spec fn rows_reviewed(
    pair: SyntaxPair,
    graph: Correspondence,
    hunks: Seq<RefinedHunk>,
    before: Span,
    after: Span,
) -> bool {
    &&& forall|row: int| before.has(row) ==> #[trigger] old_row_reviewed(pair, graph, hunks, row)
    &&& forall|row: int| after.has(row) ==> #[trigger] new_row_reviewed(pair, graph, hunks, row)
}

/// Every row of the unit that holds payload without a partner is shown as changed.
pub open spec fn payload_reviewed(
    pair: SyntaxPair,
    graph: Correspondence,
    hunks: Seq<RefinedHunk>,
    unit: MatchedUnit,
) -> bool {
    &&& forall|row: int|
        row_span(pair.before, unit.before as int).has(row) && #[trigger] row_unpartnered(
            pair.before,
            graph.tree.leaves.before@,
            unit.before as int,
            row,
        ) ==> hunks_remove(hunks, line_of(row))
    &&& forall|row: int|
        row_span(pair.after, unit.after as int).has(row) && #[trigger] row_unpartnered(
            pair.after,
            graph.tree.leaves.after@,
            unit.after as int,
            row,
        ) ==> hunks_signal(hunks, line_of(row))
}

/// What hunks must show of a unit edit.
///
/// Removed and added units are shown whole. A moved unit is shown as such. Units compared by
/// lines hide no row that is not unchanged or kept. Other modified units do so too, or they hide
/// no row with payload that was lost or added. Where only comments changed, no row of a comment
/// that was lost or added is hidden.
pub open spec fn edit_reviewed(
    pair: SyntaxPair,
    graph: Correspondence,
    hunks: Seq<RefinedHunk>,
    edit: UnitEdit,
) -> bool {
    match edit {
        UnitEdit::Removed { before } => forall|row: int|
            row_span(pair.before, before as int).has(row) ==> hunks_remove(
                hunks,
                #[trigger] line_of(row),
            ),
        UnitEdit::Added { after } => forall|row: int|
            row_span(pair.after, after as int).has(row) ==> hunks_signal(
                hunks,
                #[trigger] line_of(row),
            ),
        UnitEdit::Matched(unit) => {
            let before = row_span(pair.before, unit.before as int);
            let after = row_span(pair.after, unit.after as int);
            &&& is_moved(unit) && !before.empty() ==> forall|row: int|
                after.has(row) ==> hunks_signal(hunks, #[trigger] line_of(row))
            &&& !is_moved(unit) && unit.mode == ReviewMode::Linewise && unit.relation.strength() < 3
                ==> rows_reviewed(pair, graph, hunks, before, after)
            &&& !is_moved(unit) && unit.mode == ReviewMode::Compact && unit.relation.strength() < 3
                ==> wiring_reviewed(pair, graph, hunks, unit)
            &&& unit.mode == ReviewMode::StructureAware && unit.relation.strength() == 1
                ==> comments_reviewed(pair, graph, hunks, unit)
            &&& unit.mode == ReviewMode::StructureAware && unit.relation.strength() == 0 ==> (
            rows_reviewed(pair, graph, hunks, before, after) || payload_reviewed(
                pair,
                graph,
                hunks,
                unit,
            ))
            &&& !is_moved(unit) && unit.mode == ReviewMode::StructureAware
                && unit.relation.strength() == 2 ==> forall|row: int|
                after.has(row) && !row_linked(graph.source.lines@, before, after, row)
                    ==> hunks_signal(hunks, #[trigger] line_of(row))
        },
    }
}

/// The current line of a changed compact unit is a signal; where the unit takes more lines, no
/// row is hidden that is not unchanged or kept.
pub open spec fn wiring_reviewed(
    pair: SyntaxPair,
    graph: Correspondence,
    hunks: Seq<RefinedHunk>,
    unit: MatchedUnit,
) -> bool {
    let before = row_span(pair.before, unit.before as int);
    let after = row_span(pair.after, unit.after as int);
    if before.end - before.start > 1 || after.end - after.start > 1 {
        rows_reviewed(pair, graph, hunks, before, after)
    } else {
        !before.empty() && !after.empty() ==> hunks_signal(hunks, line_of(after.start as int))
    }
}

/// Every row of a comment that the unit lost is removed, and every row of one that it gained is a
/// signal.
pub open spec fn comments_reviewed(
    pair: SyntaxPair,
    graph: Correspondence,
    hunks: Seq<RefinedHunk>,
    unit: MatchedUnit,
) -> bool {
    &&& forall|row: int| #[trigger]
        comment_unlinked(
            pair.before,
            graph.tree.leaves.before@,
            unit.before as int,
            unit,
            row,
        ) ==> hunks_remove(hunks, line_of(row))
    &&& forall|row: int| #[trigger]
        comment_unlinked(
            pair.after,
            graph.tree.leaves.after@,
            unit.after as int,
            unit,
            row,
        ) ==> hunks_signal(hunks, line_of(row))
}

/// One-based line of a zero-based row.
pub open spec fn line_of(row: int) -> usize {
    (row + 1) as usize
}

/// A list of fragments shows what its parts show.
proof fn lemma_part_shows(fragments: Seq<Fragment>, start: int, end: int, line: usize)
    requires
        0 <= start <= end <= fragments.len(),
    ensures
        fragments_remove(fragments.subrange(start, end), line) ==> fragments_remove(
            fragments,
            line,
        ),
        fragments_signal(fragments.subrange(start, end), line) ==> fragments_signal(
            fragments,
            line,
        ),
{
    let part = fragments.subrange(start, end);
    if fragments_remove(part, line) {
        let k = choose|k: int|
            0 <= k < part.len() && removes((#[trigger] part[k]).excerpt.changes@, line);
        assert(fragments[start + k] == part[k]);
    }
    if fragments_signal(part, line) {
        let k = choose|k: int|
            0 <= k < part.len() && signals((#[trigger] part[k]).excerpt.changes@, line);
        assert(fragments[start + k] == part[k]);
    }
}

/// An accounted old row is reviewed, where hunks show what fragments show.
proof fn lemma_old_row(
    scene: PlanScene<'_>,
    part: Seq<Fragment>,
    hunks: Seq<RefinedHunk>,
    row: int,
)
    requires
        old_row_accounted(scene, excerpts_of(part), row),
        scene.before_count() < usize::MAX,
        fragments_remove(part, (row + 1) as usize) ==> hunks_remove(hunks, (row + 1) as usize),
    ensures
        old_row_reviewed(*scene.pair, *scene.graph, hunks, row),
{
    reveal(old_row_accounted);
    let excerpts = excerpts_of(part);
    let fact = choose|fact: LineFact|
        fact_ok(scene, fact) && #[trigger] before_of(fact).has(row) && (fact is Context
            || shown_somewhere(scene, excerpts, fact));
    match fact {
        LineFact::Context { before, after, strong } => {
            assert(before == row as usize);
            assert(is_exact(*scene.pair, LineLink { before: row as usize, after }));
        },
        LineFact::Reflow { before, after } => {
            assert(is_retained(scene, before, after));
            let k = choose|k: int|
                0 <= k < scene.graph.tree.composites@.len() && row_span(
                    scene.pair.before,
                    (#[trigger] scene.graph.tree.composites@[k]).before as int,
                ) == before && row_span(
                    scene.pair.after,
                    scene.graph.tree.composites@[k].after as int,
                ) == after;
            assert(row_span(
                scene.pair.before,
                scene.graph.tree.composites@[k].before as int,
            ).has(row));
        },
        _ => {
            let k = choose|k: int|
                0 <= k < excerpts.len() && shows_fact(
                    scene,
                    (#[trigger] excerpts[k]).changes@,
                    fact,
                );
            lemma_shown_rows(excerpts[k].changes@, before_of(fact), after_of(fact), row);
            assert(part[k].excerpt == excerpts[k]);
            assert(removes(part[k].excerpt.changes@, (row + 1) as usize));
        },
    }
}

/// An accounted current row is reviewed, where hunks show what fragments show.
proof fn lemma_new_row(
    scene: PlanScene<'_>,
    part: Seq<Fragment>,
    hunks: Seq<RefinedHunk>,
    row: int,
)
    requires
        new_row_accounted(scene, excerpts_of(part), row),
        scene.after_count() < usize::MAX,
        fragments_signal(part, (row + 1) as usize) ==> hunks_signal(hunks, (row + 1) as usize),
    ensures
        new_row_reviewed(*scene.pair, *scene.graph, hunks, row),
{
    reveal(new_row_accounted);
    let excerpts = excerpts_of(part);
    let fact = choose|fact: LineFact|
        fact_ok(scene, fact) && #[trigger] after_of(fact).has(row) && (fact is Context
            || shown_somewhere(scene, excerpts, fact));
    match fact {
        LineFact::Context { before, after, strong } => {
            assert(after == row as usize);
            assert(is_exact(*scene.pair, LineLink { before, after: row as usize }));
        },
        LineFact::Reflow { before, after } => {
            assert(is_retained(scene, before, after));
            let k = choose|k: int|
                0 <= k < scene.graph.tree.composites@.len() && row_span(
                    scene.pair.before,
                    (#[trigger] scene.graph.tree.composites@[k]).before as int,
                ) == before && row_span(
                    scene.pair.after,
                    scene.graph.tree.composites@[k].after as int,
                ) == after;
            assert(row_span(
                scene.pair.after,
                scene.graph.tree.composites@[k].after as int,
            ).has(row));
        },
        _ => {
            let k = choose|k: int|
                0 <= k < excerpts.len() && shows_fact(
                    scene,
                    (#[trigger] excerpts[k]).changes@,
                    fact,
                );
            lemma_shown_rows(excerpts[k].changes@, before_of(fact), after_of(fact), row);
            assert(part[k].excerpt == excerpts[k]);
            assert(signals(part[k].excerpt.changes@, (row + 1) as usize));
        },
    }
}

/// A shown replacement removes its old rows and signals its current ones.
proof fn lemma_shown_rows(
    changes: Seq<crate::review::SourceChange>,
    before: Span,
    after: Span,
    row: int,
)
    requires
        shows_replacement(changes, before, after),
    ensures
        before.has(row) && row < usize::MAX ==> removes(changes, (row + 1) as usize),
        after.has(row) && row < usize::MAX ==> signals(changes, (row + 1) as usize),
{
    let k = choose|k: int|
        0 <= k < changes.len() && is_replacement(#[trigger] changes[k], before, after);
    lemma_replacement_rows(changes[k], before, after, row);
    if before.has(row) && row < usize::MAX {
        assert(removed_by(changes[k], (row + 1) as usize));
    }
    if after.has(row) && row < usize::MAX {
        assert(signaled_by(changes[k], (row + 1) as usize));
    }
}

proof fn lemma_replacement_rows(
    change: crate::review::SourceChange,
    before: Span,
    after: Span,
    row: int,
)
    requires
        is_replacement(change, before, after),
    ensures
        before.has(row) && row < usize::MAX ==> removed_by(change, (row + 1) as usize),
        after.has(row) && row < usize::MAX ==> signaled_by(change, (row + 1) as usize),
{
    if let crate::review::SourceChange::Replace { before: removed, after: added, line_endings } =
        change {
        if before.has(row) && row < usize::MAX {
            assert(removed@[row - before.start].number == row + 1);
        }
        if after.has(row) && row < usize::MAX {
            assert(added@[row - after.start].number == row + 1);
        }
    }
}

/// Hunks that show what planned fragments show review the unit edit.
proof fn lemma_edit_reviewed(
    scene: PlanScene<'_>,
    part: Seq<Fragment>,
    hunks: Seq<RefinedHunk>,
    edit: UnitEdit,
)
    requires
        edit_planned(scene, edit, part),
        scene.before_count() < usize::MAX,
        scene.after_count() < usize::MAX,
        forall|line: usize| fragments_remove(part, line) ==> #[trigger] hunks_remove(hunks, line),
        forall|line: usize| fragments_signal(part, line) ==> #[trigger] hunks_signal(hunks, line),
    ensures
        edit_reviewed(*scene.pair, *scene.graph, hunks, edit),
{
    reveal(edit_planned);
    match edit {
        UnitEdit::Removed { before } => {
            let rows = row_span(scene.pair.before, before as int);
            assert forall|row: int| rows.has(row) implies hunks_remove(
                hunks,
                #[trigger] line_of(row),
            ) by {
                let nothing = Span { start: 0, end: 0 };
                lemma_replacement_rows(part[0].excerpt.changes@[0], rows, nothing, row);
                assert(removed_by(part[0].excerpt.changes@[0], line_of(row)));
                assert(removes(part[0].excerpt.changes@, line_of(row)));
                assert(fragments_remove(part, line_of(row)));
            }
        },
        UnitEdit::Added { after } => {
            let rows = row_span(scene.pair.after, after as int);
            assert forall|row: int| rows.has(row) implies hunks_signal(
                hunks,
                #[trigger] line_of(row),
            ) by {
                let nothing = Span { start: 0, end: 0 };
                lemma_replacement_rows(part[0].excerpt.changes@[0], nothing, rows, row);
                assert(signaled_by(part[0].excerpt.changes@[0], line_of(row)));
                assert(signals(part[0].excerpt.changes@, line_of(row)));
                assert(fragments_signal(part, line_of(row)));
            }
        },
        UnitEdit::Matched(unit) => {
            lemma_unit_reviewed(scene, part, hunks, unit);
        },
    }
}

/// Hunks that show what fragments show also show the rows with lost or added payload.
proof fn lemma_payload_reviewed(
    scene: PlanScene<'_>,
    part: Seq<Fragment>,
    hunks: Seq<RefinedHunk>,
    unit: MatchedUnit,
)
    requires
        payload_rows_shown(scene, unit, excerpts_of(part)),
        scene.before_count() < usize::MAX,
        scene.after_count() < usize::MAX,
        row_span(scene.pair.before, unit.before as int).end <= scene.before_count(),
        row_span(scene.pair.after, unit.after as int).end <= scene.after_count(),
        forall|line: usize| fragments_remove(part, line) ==> #[trigger] hunks_remove(hunks, line),
        forall|line: usize| fragments_signal(part, line) ==> #[trigger] hunks_signal(hunks, line),
    ensures
        payload_reviewed(*scene.pair, *scene.graph, hunks, unit),
{
    let excerpts = excerpts_of(part);
    assert forall|row: int|
        row_span(scene.pair.before, unit.before as int).has(row) && #[trigger] row_unpartnered(
            scene.pair.before,
            scene.graph.tree.leaves.before@,
            unit.before as int,
            row,
        ) implies hunks_remove(hunks, line_of(row)) by {
        let edit = choose|edit: LineEdit|
            edit.before == Some(line_of(row)) && #[trigger] row_shown_somewhere(
                excerpts,
                UnitRow::Edit(edit),
            );
        lemma_edit_shown(part, edit);
        assert(fragments_remove(part, line_of(row)));
    }
    assert forall|row: int|
        row_span(scene.pair.after, unit.after as int).has(row) && #[trigger] row_unpartnered(
            scene.pair.after,
            scene.graph.tree.leaves.after@,
            unit.after as int,
            row,
        ) implies hunks_signal(hunks, line_of(row)) by {
        lemma_current_line_shown(part, line_of(row));
    }
}

/// Hunks that show what fragments show also show the rows of lost and added comments.
proof fn lemma_comments_reviewed(
    scene: PlanScene<'_>,
    part: Seq<Fragment>,
    hunks: Seq<RefinedHunk>,
    unit: MatchedUnit,
)
    requires
        comments_shown(scene, unit, excerpts_of(part)),
        scene.before_count() < usize::MAX,
        scene.after_count() < usize::MAX,
        forall|line: usize| fragments_remove(part, line) ==> #[trigger] hunks_remove(hunks, line),
        forall|line: usize| fragments_signal(part, line) ==> #[trigger] hunks_signal(hunks, line),
    ensures
        comments_reviewed(*scene.pair, *scene.graph, hunks, unit),
{
    let excerpts = excerpts_of(part);
    assert forall|row: int| #[trigger]
        comment_unlinked(
            scene.pair.before,
            scene.graph.tree.leaves.before@,
            unit.before as int,
            unit,
            row,
        ) implies hunks_remove(hunks, line_of(row)) by {
        let edit = choose|edit: LineEdit|
            edit.before == Some(line_of(row)) && #[trigger] row_shown_somewhere(
                excerpts,
                UnitRow::Edit(edit),
            );
        lemma_edit_shown(part, edit);
        assert(fragments_remove(part, line_of(row)));
    }
    assert forall|row: int| #[trigger]
        comment_unlinked(
            scene.pair.after,
            scene.graph.tree.leaves.after@,
            unit.after as int,
            unit,
            row,
        ) implies hunks_signal(hunks, line_of(row)) by {
        lemma_current_line_shown(part, line_of(row));
    }
}

/// A current line that excerpts show as changed is a signal of their fragments.
proof fn lemma_current_line_shown(part: Seq<Fragment>, line: usize)
    requires
        line > 0,
        current_line_shown(excerpts_of(part), line),
    ensures
        fragments_signal(part, line),
{
    let excerpts = excerpts_of(part);
    let marked = UnitRow::Marked(line);
    if row_shown_somewhere(excerpts, marked) {
        let k = choose|k: int|
            0 <= k < excerpts.len() && row_shown((#[trigger] excerpts[k]).changes@, marked);
        let changes = excerpts[k].changes@;
        let i = choose|i: int| 0 <= i < changes.len() && shows_row(#[trigger] changes[i], marked);
        assert(signaled_by(changes[i], line));
        assert(part[k].excerpt == excerpts[k]);
        assert(signals(part[k].excerpt.changes@, line));
    } else {
        let edit = choose|edit: LineEdit|
            edit.after == Some(line) && #[trigger] row_shown_somewhere(
                excerpts,
                UnitRow::Edit(edit),
            );
        lemma_edit_shown(part, edit);
    }
}

/// A shown edit removes its old line and signals its current one.
proof fn lemma_edit_shown(part: Seq<Fragment>, edit: LineEdit)
    requires
        row_shown_somewhere(excerpts_of(part), UnitRow::Edit(edit)),
    ensures
        edit.before matches Some(line) ==> (line > 0 ==> fragments_remove(part, line)),
        edit.after matches Some(line) ==> (line > 0 ==> fragments_signal(part, line)),
{
    let shown = UnitRow::Edit(edit);
    let excerpts = excerpts_of(part);
    let k = choose|k: int|
        0 <= k < excerpts.len() && row_shown((#[trigger] excerpts[k]).changes@, shown);
    let changes = excerpts[k].changes@;
    let i = choose|i: int| 0 <= i < changes.len() && shows_row(#[trigger] changes[i], shown);
    assert(part[k].excerpt == excerpts[k]);
    if let Some(line) = edit.before {
        if line > 0 {
            lemma_replacement_rows(
                changes[i],
                side_rows(edit.before),
                side_rows(edit.after),
                line - 1,
            );
            assert(removed_by(changes[i], line));
            assert(removes(part[k].excerpt.changes@, line));
        }
    }
    if let Some(line) = edit.after {
        if line > 0 {
            lemma_replacement_rows(
                changes[i],
                side_rows(edit.before),
                side_rows(edit.after),
                line - 1,
            );
            assert(signaled_by(changes[i], line));
            assert(signals(part[k].excerpt.changes@, line));
        }
    }
}

proof fn lemma_unit_reviewed(
    scene: PlanScene<'_>,
    part: Seq<Fragment>,
    hunks: Seq<RefinedHunk>,
    unit: MatchedUnit,
)
    requires
        unit_planned(scene, unit, part),
        scene.before_count() < usize::MAX,
        scene.after_count() < usize::MAX,
        forall|line: usize| fragments_remove(part, line) ==> #[trigger] hunks_remove(hunks, line),
        forall|line: usize| fragments_signal(part, line) ==> #[trigger] hunks_signal(hunks, line),
    ensures
        edit_reviewed(*scene.pair, *scene.graph, hunks, UnitEdit::Matched(unit)),
{
    let before = row_span(scene.pair.before, unit.before as int);
    let after = row_span(scene.pair.after, unit.after as int);
    if unit_rows_accounted(scene, unit, excerpts_of(part)) {
        assert forall|row: int| before.has(row) implies #[trigger] old_row_reviewed(
            *scene.pair,
            *scene.graph,
            hunks,
            row,
        ) by {
            assert(old_row_accounted(scene, excerpts_of(part), row));
            lemma_old_row(scene, part, hunks, row);
        }
        assert forall|row: int| after.has(row) implies #[trigger] new_row_reviewed(
            *scene.pair,
            *scene.graph,
            hunks,
            row,
        ) by {
            assert(new_row_accounted(scene, excerpts_of(part), row));
            lemma_new_row(scene, part, hunks, row);
        }
    }
    if !is_moved(unit) && unit.mode == ReviewMode::Compact && unit.relation.strength() < 3
        && !is_tall(scene, unit) && !before.empty() && !after.empty() {
        let change = part[0].excerpt.changes@[0];
        assert(signaled_by(change, line_of(after.start as int)));
        assert(signals(part[0].excerpt.changes@, line_of(after.start as int)));
        assert(fragments_signal(part, line_of(after.start as int)));
    }
    if comments_shown(scene, unit, excerpts_of(part)) {
        lemma_comments_reviewed(scene, part, hunks, unit);
    }
    if payload_rows_shown(scene, unit, excerpts_of(part)) {
        lemma_payload_reviewed(scene, part, hunks, unit);
    }
    if is_moved(unit) && !before.empty() {
        assert forall|row: int| after.has(row) implies hunks_signal(
            hunks,
            #[trigger] line_of(row),
        ) by {
            let change = part[0].excerpt.changes@[0];
            assert(signaled_by(change, line_of(row)));
            assert(signals(part[0].excerpt.changes@, line_of(row)));
            assert(fragments_signal(part, line_of(row)));
        }
    }
    if !is_moved(unit) && unit.mode == ReviewMode::StructureAware && unit.relation.strength() == 2 {
        assert forall|row: int|
            after.has(row) && !row_linked(
                scene.graph.source.lines@,
                before,
                after,
                row,
            ) implies hunks_signal(hunks, #[trigger] line_of(row)) by {
            let shown = UnitRow::Reflow((row + 1) as usize);
            let excerpts = excerpts_of(part);
            assert(row_shown_somewhere(excerpts, shown));
            let k = choose|k: int|
                0 <= k < excerpts.len() && row_shown((#[trigger] excerpts[k]).changes@, shown);
            let changes = excerpts[k].changes@;
            let i = choose|i: int| 0 <= i < changes.len() && shows_row(#[trigger] changes[i], shown);
            assert(signaled_by(changes[i], line_of(row)));
            assert(part[k].excerpt == excerpts[k]);
            assert(signals(part[k].excerpt.changes@, line_of(row)));
            assert(fragments_signal(part, line_of(row)));
        }
    }
}

/// Every review unit of the tree is compared line by line.
pub open spec fn all_linewise(tree: SyntaxTree) -> bool {
    forall|id: int|
        0 <= id < tree.nodes@.len() ==> ((#[trigger] tree.nodes@[id]).review matches Some(review)
            ==> review.mode == ReviewMode::Linewise)
}

/// Whether every review unit is compared line by line.
fn only_linewise(tree: &SyntaxTree) -> (result: bool)
    ensures
        result == all_linewise(*tree),
{
    let mut id: usize = 0;
    while id < tree.nodes.len()
        invariant
            id <= tree.nodes@.len(),
            forall|other: int|
                0 <= other < id ==> ((#[trigger] tree.nodes@[other]).review matches Some(review)
                    ==> review.mode == ReviewMode::Linewise),
        decreases tree.nodes@.len() - id,
    {
        if let Some(review) = tree.nodes[id].review {
            if !matches!(review.mode, ReviewMode::Linewise) {
                assert(tree.nodes@[id as int].review is Some);
                return false;
            }
        }
        id += 1;
    }
    true
}

/// What the hunks of two revisions must show.
pub open spec fn hunks_review(
    pair: SyntaxPair,
    graph: Correspondence,
    hunks: Seq<RefinedHunk>,
) -> bool {
    &&& forall|k: int|
        0 <= k < hunks.len() ==> hunk_ok(
            #[trigger] hunks[k],
            pair.before.source.line_seq().len() as int,
            pair.after.source.line_seq().len() as int,
        )
    &&& if all_linewise(pair.before) && all_linewise(pair.after) {
        rows_reviewed(
            pair,
            graph,
            hunks,
            Span { start: 0, end: pair.before.source.line_seq().len() as usize },
            Span { start: 0, end: pair.after.source.line_seq().len() as usize },
        )
    } else {
        forall|k: int|
            0 <= k < graph.source.review_units@.len() ==> edit_reviewed(
                pair,
                graph,
                hunks,
                graph.tree.units@[(#[trigger] graph.source.review_units@[k]) as int],
            )
    }
    &&& !(all_linewise(pair.before) && all_linewise(pair.after)) ==> forall|k: int|
        0 <= k < graph.source.fallbacks@.len() ==> rows_reviewed(
            pair,
            graph,
            hunks,
            (#[trigger] graph.source.fallbacks@[k]).before,
            graph.source.fallbacks@[k].after,
        )
    &&& exists|anchors: AnchorFacts, fragments: Seq<Fragment>| #[trigger]
        is_plan(pair, graph, anchors, fragments) && is_review_of(pair, graph, anchors, fragments, hunks) && claims_kept(
            fragments,
            hunks,
        )
}

/// Fragments that plan the files: line by line where all units ask for that, else every
/// reviewed unit and every fallback.
pub open spec fn is_plan(
    pair: SyntaxPair,
    graph: Correspondence,
    anchors: AnchorFacts,
    fragments: Seq<Fragment>,
) -> bool {
    let scene = PlanScene { pair: &pair, graph: &graph, anchors: &anchors };
    &&& anchors.describes(pair)
    &&& if all_linewise(pair.before) && all_linewise(pair.after) {
        file_planned_by_lines(scene, fragments)
    } else {
        file_planned(scene, fragments)
    }
}

/// Every row of both files is shown as an edit, or unchanged.
pub open spec fn file_planned_by_lines(scene: PlanScene<'_>, fragments: Seq<Fragment>) -> bool {
    &&& all_signal(fragments, Signal::Edit)
    &&& forall|row: int|
        0 <= row < scene.before_count() ==> #[trigger] old_row_accounted(
            scene,
            excerpts_of(fragments),
            row,
        )
    &&& forall|row: int|
        0 <= row < scene.after_count() ==> #[trigger] new_row_accounted(
            scene,
            excerpts_of(fragments),
            row,
        )
    &&& region_drawn(
        scene,
        all_rows(scene.pair.before.source),
        all_rows(scene.pair.after.source),
        scene.graph.tree.composites@,
        AnchorBasis::Physical,
        excerpts_of(fragments),
    )
    &&& region_explained(
        scene,
        all_rows(scene.pair.before.source),
        all_rows(scene.pair.after.source),
        scene.graph.tree.composites@,
        None,
        AnchorBasis::Physical,
        excerpts_of(fragments),
    )
}

/// Fragments claim what their excerpts claim.
pub proof fn lemma_excerpts_tally(fragments: Seq<Fragment>, claim: Claim)
    ensures
        excerpts_tally(excerpts_of(fragments), claim) == fragments_tally(fragments, claim),
    decreases fragments.len(),
{
    if fragments.len() > 0 {
        lemma_excerpts_tally(fragments.drop_last(), claim);
        assert(excerpts_of(fragments).drop_last() =~= excerpts_of(fragments.drop_last()));
    }
}

/// In files that are reviewed line by line every line is owned by one row: over all hunks no old
/// line is removed twice, and no current line is added or reflowed twice; and nothing else is
/// marked.
pub proof fn law_linewise_files_own_lines_once(
    pair: SyntaxPair,
    graph: Correspondence,
    hunks: Seq<RefinedHunk>,
    claim: Claim,
)
    requires
        pair.wf(),
        graph.wf(pair),
        all_linewise(pair.before),
        all_linewise(pair.after),
        hunks_review(pair, graph, hunks),
    ensures
        hunks_tally(hunks, claim) <= 1,
        hunks_tally(hunks, claim) > 0 ==> claim is Removed || claim is Added || claim is Reflowed,
{
    let (anchors, fragments) = choose|anchors: AnchorFacts, fragments: Seq<Fragment>| #[trigger]
        is_plan(pair, graph, anchors, fragments) && is_review_of(pair, graph, anchors, fragments, hunks) && claims_kept(
            fragments,
            hunks,
        );
    let scene = PlanScene { pair: &pair, graph: &graph, anchors: &anchors };
    assert(hunks_tally(hunks, claim) == fragments_tally(fragments, claim));
    lemma_excerpts_tally(fragments, claim);
    law_regions_own_rows_once(
        scene,
        all_rows(pair.before.source),
        all_rows(pair.after.source),
        graph.tree.composites@,
        AnchorBasis::Physical,
        excerpts_of(fragments),
        claim,
    );
}

/// No two rows of one hunk, and no rows of two hunks, own the same line of files that are
/// reviewed line by line.
pub proof fn law_no_two_rows_own_a_line(
    pair: SyntaxPair,
    graph: Correspondence,
    hunks: Seq<RefinedHunk>,
    claim: Claim,
)
    requires
        pair.wf(),
        graph.wf(pair),
        all_linewise(pair.before),
        all_linewise(pair.after),
        hunks_review(pair, graph, hunks),
    ensures
        forall|h: int, i: int, j: int|
            0 <= h < hunks.len() && 0 <= i < j < hunks[h].changes@.len() ==> claims_in(
                #[trigger] hunks[h].changes@[i],
                claim,
            ) == 0 || claims_in(#[trigger] hunks[h].changes@[j], claim) == 0,
        forall|h: int, g: int|
            0 <= h < g < hunks.len() ==> tally((#[trigger] hunks[h]).changes@, claim) == 0 || tally(
                (#[trigger] hunks[g]).changes@,
                claim,
            ) == 0,
{
    law_linewise_files_own_lines_once(pair, graph, hunks, claim);
    let weight = hunk_weight(claim);
    assert forall|h: int, i: int, j: int|
        0 <= h < hunks.len() && 0 <= i < j < hunks[h].changes@.len() implies claims_in(
        #[trigger] hunks[h].changes@[i],
        claim,
    ) == 0 || claims_in(#[trigger] hunks[h].changes@[j], claim) == 0 by {
        lemma_total_holds(hunks, weight, h);
        lemma_total_holds_two(hunks[h].changes@, change_weight(claim), i, j);
    }
    assert forall|h: int, g: int| 0 <= h < g < hunks.len() implies tally(
        (#[trigger] hunks[h]).changes@,
        claim,
    ) == 0 || tally((#[trigger] hunks[g]).changes@, claim) == 0 by {
        lemma_total_holds_two(hunks, weight, h, g);
    }
}

/// Line trees, which also stand in for a file that does not parse, show no line as reflow.
pub proof fn law_line_trees_show_no_reflow(
    pair: SyntaxPair,
    graph: Correspondence,
    hunks: Seq<RefinedHunk>,
    line: usize,
)
    requires
        pair.wf(),
        graph.wf(pair),
        is_line_tree(pair.before),
        is_line_tree(pair.after),
        has_matching(pair, graph.tree),
        hunks_review(pair, graph, hunks),
    ensures
        hunks_tally(hunks, Claim::Reflowed(line)) == 0,
        forall|h: int|
            0 <= h < hunks.len() ==> !(#[trigger] hunks[h]).changes@.contains(
                SourceChange::Reflow(line),
            ),
{
    let claim = Claim::Reflowed(line);
    assert(all_linewise(pair.before) && all_linewise(pair.after)) by {
        lemma_line_trees_are_linewise(pair.before);
        lemma_line_trees_are_linewise(pair.after);
    }
    assert(is_flat(pair.before)) by {
        lemma_line_trees_are_linewise(pair.before);
    }
    assert(graph.tree.composites@.len() == 0);
    let (anchors, fragments) = choose|anchors: AnchorFacts, fragments: Seq<Fragment>| #[trigger]
        is_plan(pair, graph, anchors, fragments) && is_review_of(pair, graph, anchors, fragments, hunks) && claims_kept(
            fragments,
            hunks,
        );
    let scene = PlanScene { pair: &pair, graph: &graph, anchors: &anchors };
    assert(hunks_tally(hunks, claim) == fragments_tally(fragments, claim));
    lemma_excerpts_tally(fragments, claim);
    law_no_reflow_without_matched_subtrees(
        scene,
        all_rows(pair.before.source),
        all_rows(pair.after.source),
        graph.tree.composites@,
        AnchorBasis::Physical,
        excerpts_of(fragments),
        line,
    );
    assert forall|h: int| 0 <= h < hunks.len() implies !(#[trigger] hunks[h]).changes@.contains(
        SourceChange::Reflow(line),
    ) by {
        if hunks[h].changes@.contains(SourceChange::Reflow(line)) {
            let k = choose|k: int|
                0 <= k < hunks[h].changes@.len() && hunks[h].changes@[k] == SourceChange::Reflow(
                    line,
                );
            lemma_total_holds(hunks[h].changes@, change_weight(claim), k);
            lemma_total_holds(hunks, hunk_weight(claim), h);
        }
    }
}

/// A line tree asks for review by lines, and holds no structure.
proof fn lemma_line_trees_are_linewise(tree: SyntaxTree)
    requires
        is_line_tree(tree),
    ensures
        all_linewise(tree),
        is_flat(tree),
{
    assert forall|id: int| 0 <= id < tree.nodes@.len() implies ((
    #[trigger] tree.nodes@[id]).review matches Some(review) ==> review.mode
        == ReviewMode::Linewise) by {
        if id > 0 {
            assert(is_line_leaf(tree.nodes@[id], tree.source.line_seq()[id - 1], id));
        }
    }
    assert forall|id: int| 0 < id < tree.nodes@.len() implies !(
    #[trigger] tree.nodes@[id]).is_composite() by {
        assert(is_line_leaf(tree.nodes@[id], tree.source.line_seq()[id - 1], id));
    }
}

/// What the excerpts of a fallback claim, its fragments claim: every row of a fallback is owned
/// once, and shows no reflow.
pub proof fn law_fallbacks_own_rows_once(
    scene: PlanScene<'_>,
    fallback: LineFallback,
    fragments: Seq<Fragment>,
    claim: Claim,
)
    requires
        scene.wf(),
        region_planned(scene, fallback, fragments),
    ensures
        fragments_tally(fragments, claim) <= 1,
        fragments_tally(fragments, claim) > 0 ==> match claim {
            Claim::Removed(line) => fallback.before.has(line - 1),
            Claim::Added(line) => fallback.after.has(line - 1),
            _ => false,
        },
{
    reveal(region_planned);
    lemma_excerpts_tally(fragments, claim);
    law_regions_own_rows_once(
        scene,
        fallback.before,
        fallback.after,
        Seq::empty(),
        AnchorBasis::Physical,
        excerpts_of(fragments),
        claim,
    );
    if let Claim::Reflowed(line) = claim {
        law_no_reflow_without_matched_subtrees(
            scene,
            fallback.before,
            fallback.after,
            Seq::empty(),
            AnchorBasis::Physical,
            excerpts_of(fragments),
            line,
        );
    }
}

/// Turn one neutral edit graph into the complete ordered review stream.
///
/// Equal texts need no review. Otherwise removed and added units are shown whole, and rows
/// compared line by line are shown unless they are unchanged or belong to a matched subtree.
pub fn plan_hunks(pair: &SyntaxPair, graph: &Correspondence) -> (hunks: Vec<RefinedHunk>)
    requires
        pair.wf(),
        graph.wf(*pair),
    ensures
        pair.before.source.data() == pair.after.source.data() ==> hunks@.len() == 0,
        pair.before.source.data() != pair.after.source.data() ==> hunks_review(
            *pair,
            *graph,
            hunks@,
        ),
{
    let old_text = pair.before.source.as_str();
    let new_text = pair.after.source.as_str();
    proof {
        lemma_encode_injective(old_text@, new_text@);
    }
    if same_str(old_text, new_text) {
        return Vec::new();
    }
    let anchors = AnchorFacts::new(pair);
    let scene = PlanScene { pair, graph, anchors: &anchors };
    let linewise = only_linewise(&pair.before) && only_linewise(&pair.after);
    let fragments = if linewise {
        plan_whole_file_lines(&scene)
    } else {
        plan_units(&scene)
    };
    let ghost planned = fragments@;
    let hunks = assemble(fragments, &scene, !linewise);
    proof {
        scene.pair.before.source.lemma_line_count();
        scene.pair.after.source.lemma_line_count();
        assert(is_plan(*pair, *graph, anchors, planned));
        if !linewise {
            assert forall|k: int| 0 <= k < graph.source.fallbacks@.len() implies rows_reviewed(
                *pair,
                *graph,
                hunks@,
                (#[trigger] graph.source.fallbacks@[k]).before,
                graph.source.fallbacks@[k].after,
            ) by {
                lemma_fallback_reviewed(scene, planned, hunks@, k);
            }
        }
        if linewise {
            assert forall|row: int| 0 <= row < scene.before_count() implies #[trigger] old_row_reviewed(
                *pair,
                *graph,
                hunks@,
                row,
            ) by {
                assert(old_row_accounted(scene, excerpts_of(planned), row));
                lemma_old_row(scene, planned, hunks@, row);
            }
            assert forall|row: int| 0 <= row < scene.after_count() implies #[trigger] new_row_reviewed(
                *pair,
                *graph,
                hunks@,
                row,
            ) by {
                assert(new_row_accounted(scene, excerpts_of(planned), row));
                lemma_new_row(scene, planned, hunks@, row);
            }
        } else {
            assert forall|k: int| 0 <= k < graph.source.review_units@.len() implies edit_reviewed(
                *pair,
                *graph,
                hunks@,
                graph.tree.units@[(#[trigger] graph.source.review_units@[k]) as int],
            ) by {
                let position = graph.source.review_units@[k];
                assert(scene.graph.source.review_units@[k] == position);
                assert(unit_edit_planned(scene, position, planned));
                lemma_planned_reviewed(scene, planned, hunks@, position);
            }
        }
    }
    hunks
}

proof fn lemma_fallback_reviewed(
    scene: PlanScene<'_>,
    planned: Seq<Fragment>,
    hunks: Seq<RefinedHunk>,
    index: int,
)
    requires
        file_planned(scene, planned),
        scene.wf(),
        0 <= index < scene.graph.source.fallbacks@.len(),
        scene.before_count() < usize::MAX,
        scene.after_count() < usize::MAX,
        forall|line: usize|
            fragments_remove(planned, line) ==> #[trigger] hunks_remove(hunks, line),
        forall|line: usize|
            fragments_signal(planned, line) ==> #[trigger] hunks_signal(hunks, line),
    ensures
        rows_reviewed(
            *scene.pair,
            *scene.graph,
            hunks,
            scene.graph.source.fallbacks@[index].before,
            scene.graph.source.fallbacks@[index].after,
        ),
{
    let units = scene.graph.source.review_units@.len();
    let count = (units + scene.graph.source.fallbacks@.len()) as int;
    let cuts = choose|cuts: Seq<int>| #[trigger] parts_planned(scene, planned, cuts, count);
    reveal(parts_planned);
    let k = units + index;
    let start = cuts[k];
    let end = cuts[k + 1];
    assert(is_run(planned, cuts[k], cuts[k + 1]));
    let part = planned.subrange(start, end);
    assert(part_planned(scene, k, part));
    reveal(region_planned);
    assert forall|line: usize| fragments_remove(part, line) implies #[trigger] hunks_remove(
        hunks,
        line,
    ) by {
        lemma_part_shows(planned, start, end, line);
    }
    assert forall|line: usize| fragments_signal(part, line) implies #[trigger] hunks_signal(
        hunks,
        line,
    ) by {
        lemma_part_shows(planned, start, end, line);
    }
    let fallback = scene.graph.source.fallbacks@[index];
    assert(crate::correspondence::lines::fallback_fits(*scene.pair, fallback));
    assert forall|row: int| fallback.before.has(row) implies #[trigger] old_row_reviewed(
        *scene.pair,
        *scene.graph,
        hunks,
        row,
    ) by {
        assert(old_row_accounted(scene, excerpts_of(part), row));
        lemma_old_row(scene, part, hunks, row);
    }
    assert forall|row: int| fallback.after.has(row) implies #[trigger] new_row_reviewed(
        *scene.pair,
        *scene.graph,
        hunks,
        row,
    ) by {
        assert(new_row_accounted(scene, excerpts_of(part), row));
        lemma_new_row(scene, part, hunks, row);
    }
}

proof fn lemma_planned_reviewed(
    scene: PlanScene<'_>,
    planned: Seq<Fragment>,
    hunks: Seq<RefinedHunk>,
    position: usize,
)
    requires
        unit_edit_planned(scene, position, planned),
        scene.before_count() < usize::MAX,
        scene.after_count() < usize::MAX,
        forall|line: usize|
            fragments_remove(planned, line) ==> #[trigger] hunks_remove(hunks, line),
        forall|line: usize|
            fragments_signal(planned, line) ==> #[trigger] hunks_signal(hunks, line),
    ensures
        edit_reviewed(
            *scene.pair,
            *scene.graph,
            hunks,
            scene.graph.tree.units@[position as int],
        ),
{
    let (start, end) = choose|start: int, end: int| #[trigger]
        is_run(planned, start, end) && edit_planned(
            scene,
            scene.graph.tree.units@[position as int],
            planned.subrange(start, end),
        );
    let part = planned.subrange(start, end);
    assert forall|line: usize| fragments_remove(part, line) implies #[trigger] hunks_remove(
        hunks,
        line,
    ) by {
        lemma_part_shows(planned, start, end, line);
    }
    assert forall|line: usize| fragments_signal(part, line) implies #[trigger] hunks_signal(
        hunks,
        line,
    ) by {
        lemma_part_shows(planned, start, end, line);
    }
    lemma_edit_reviewed(scene, part, hunks, scene.graph.tree.units@[position as int]);
}

} // verus!

//! Where a change is shown: in one hunk, with the current lines around the place where it stands.

use crate::change::Signal;
use crate::correspondence::links::UnitEdit;
use crate::correspondence::Correspondence;
use crate::plan::anchored::{
    hint_line, holds_change, is_held, is_placed, is_signal, removed_by, removes, signaled_by,
    signals, stands_after, stands_before, AnchoredChange,
};
use crate::plan::display::{anchor_haloed, focus_haloed, haloed, in_halo};
use crate::plan::excerpts::{displays, names_line};
use crate::plan::order::LineAlignment;
use crate::plan::ownership::holds_line;
use crate::plan::scene::{AnchorFacts, PlanScene};
use crate::plan::sequence::ReviewSequence;
use crate::plan::units::{
    edit_placed, edit_planned, is_run, lines_before, one_sided_planned, part_planned, parts_planned,
    Fragment,
};
use crate::plan::{
    alignment_of, all_linewise, are_assembled, claims_kept, hides_nothing, hunks_review,
    is_assembly, is_plan, is_review_of, shows_nothing,
};
use crate::review::{RefinedHunk, SourceChange};
use crate::syntax::{SyntaxPair, SyntaxTree};
use vstd::prelude::*;

verus! {

/// The hunk replaces and signals what the fragment does, and displays the lines around the place
/// where the fragment stands, or else around each of its signals.
pub open spec fn carries(
    alignment: LineAlignment<'_>,
    fragment: Fragment,
    hunk: RefinedHunk,
) -> bool {
    &&& forall|line: usize|
        removes(fragment.excerpt.changes@, line) ==> #[trigger] removes(hunk.changes@, line)
    &&& forall|line: usize|
        signals(fragment.excerpt.changes@, line) ==> #[trigger] signals(hunk.changes@, line)
    &&& fragment.signal != Signal::Move ==> match fragment.order_hint {
        Some(order) => alignment.after_lines > 0 ==> haloed(
            hunk.changes@,
            hint_line(order, alignment.after_lines as int) as usize,
            alignment.after_lines as int,
        ),
        None => {
            &&& forall|line: usize| #[trigger]
                stands_after(fragment.excerpt.changes@, line) ==> haloed(
                    hunk.changes@,
                    line,
                    alignment.after_lines as int,
                )
            &&& alignment.after_lines > 0 ==> forall|line: usize| #[trigger]
                stands_before(fragment.excerpt.changes@, line) ==> anchor_haloed(
                    alignment,
                    hunk.changes@,
                    line,
                )
        },
    }
}

/// Some hunk carries the fragment.
pub open spec fn is_carried(
    alignment: LineAlignment<'_>,
    fragment: Fragment,
    hunks: Seq<RefinedHunk>,
) -> bool {
    exists|h: int| 0 <= h < hunks.len() && #[trigger] carries(alignment, fragment, hunks[h])
}

/// A change that is held by a group and finished in a hunk is carried by it.
proof fn lemma_carries(
    alignment: LineAlignment<'_>,
    fragment: Fragment,
    change: AnchoredChange,
    group: AnchoredChange,
    hunk: RefinedHunk,
)
    requires
        is_placed(fragment, alignment, change),
        crate::plan::anchored::keeps_review(fragment.excerpt.changes@, change.changes@),
        holds_change(group, change),
        crate::plan::anchored::keeps_review(group.changes@, hunk.changes@),
        focus_haloed(alignment, group.context_focus, hunk.changes@),
    ensures
        carries(alignment, fragment, hunk),
{
    assert forall|line: usize| removes(fragment.excerpt.changes@, line) implies #[trigger] removes(
        hunk.changes@,
        line,
    ) by {
        assert(removes(change.changes@, line));
        lemma_held_shows(group, change, line);
        assert(removes(group.changes@, line));
    }
    assert forall|line: usize| signals(fragment.excerpt.changes@, line) implies #[trigger] signals(
        hunk.changes@,
        line,
    ) by {
        assert(signals(change.changes@, line));
        lemma_held_shows(group, change, line);
        assert(signals(group.changes@, line));
    }
    if fragment.signal != Signal::Move {
        let focus = change.context_focus;
        assert forall|line: usize| #[trigger] focus.after@.contains(line) implies haloed(
            hunk.changes@,
            line,
            alignment.after_lines as int,
        ) by {
            assert(group.context_focus.after@.contains(line));
        }
        if alignment.after_lines > 0 {
            assert forall|line: usize| #[trigger] focus.before@.contains(
                line,
            ) implies anchor_haloed(alignment, hunk.changes@, line) by {
                assert(group.context_focus.before@.contains(line));
            }
        }
        match fragment.order_hint {
            Some(order) => {
                if alignment.after_lines > 0 {
                    let line = hint_line(order, alignment.after_lines as int) as usize;
                    assert(focus.after@.contains(line));
                }
            },
            None => {
                assert forall|line: usize| #[trigger]
                    stands_after(fragment.excerpt.changes@, line) implies haloed(
                    hunk.changes@,
                    line,
                    alignment.after_lines as int,
                ) by {
                    assert(focus.after@.contains(line));
                }
                if alignment.after_lines > 0 {
                    assert forall|line: usize| #[trigger]
                        stands_before(fragment.excerpt.changes@, line) implies anchor_haloed(
                        alignment,
                        hunk.changes@,
                        line,
                    ) by {
                        assert(focus.before@.contains(line));
                    }
                }
            },
        }
    }
}

/// A group shows what a change that it holds shows.
proof fn lemma_held_shows(group: AnchoredChange, change: AnchoredChange, line: usize)
    requires
        holds_change(group, change),
    ensures
        removes(change.changes@, line) ==> removes(group.changes@, line),
        signals(change.changes@, line) ==> signals(group.changes@, line),
{
    let all = group.changes@;
    let own = change.changes@;
    if removes(own, line) {
        let k = choose|k: int| 0 <= k < own.len() && removed_by(#[trigger] own[k], line);
        assert(own.contains(own[k]));
        assert(all.contains(own[k]));
        let i = choose|i: int| 0 <= i < all.len() && all[i] == own[k];
        assert(removed_by(all[i], line));
    }
    if signals(own, line) {
        let k = choose|k: int| 0 <= k < own.len() && signaled_by(#[trigger] own[k], line);
        assert(own.contains(own[k]));
        assert(all.contains(own[k]));
        let i = choose|i: int| 0 <= i < all.len() && all[i] == own[k];
        assert(signaled_by(all[i], line));
    }
}

/// Every fragment that replaces or signals a line is carried by one hunk.
pub proof fn law_fragments_are_carried_whole(
    alignment: LineAlignment<'_>,
    sequence: Option<ReviewSequence>,
    fragments: Seq<Fragment>,
    hunks: Seq<RefinedHunk>,
    at: int,
    line: usize,
)
    requires
        are_assembled(alignment, sequence, fragments, hunks),
        0 <= at < fragments.len(),
        removes(fragments[at].excerpt.changes@, line) || stands_after(
            fragments[at].excerpt.changes@,
            line,
        ) && signals(fragments[at].excerpt.changes@, line),
    ensures
        is_carried(alignment, fragments[at], hunks),
{
    let (placed, sources, sorted, melded, ordered, picks) = choose|
        placed: Seq<AnchoredChange>,
        sources: Seq<int>,
        sorted: Seq<AnchoredChange>,
        melded: Seq<AnchoredChange>,
        ordered: Seq<AnchoredChange>,
        picks: Seq<int>,
    | #[trigger]
        is_assembly(
            alignment,
            sequence,
            fragments,
            placed,
            sources,
            sorted,
            melded,
            ordered,
            hunks,
            picks,
        );
    let fragment = fragments[at];
    let shown = fragment.excerpt.changes@;
    assert(!shows_nothing(fragment)) by {
        if removes(shown, line) {
            let k = choose|k: int| 0 <= k < shown.len() && removed_by(#[trigger] shown[k], line);
            assert(is_signal(shown[k]));
        } else {
            let k = choose|k: int|
                0 <= k < shown.len() && crate::plan::anchored::focuses_after(
                    #[trigger] shown[k],
                    line,
                );
            assert(is_signal(shown[k]));
        }
    }
    assert(sources.contains(at));
    let p = choose|p: int| 0 <= p < sources.len() && sources[p] == at;
    let change = placed[p];
    assert(placed.contains(change));
    assert(sorted.contains(change));
    let s = choose|s: int| 0 <= s < sorted.len() && sorted[s] == change;
    assert(is_held(melded, sorted[s]));
    let g = choose|g: int| 0 <= g < melded.len() && #[trigger] holds_change(melded[g], sorted[s]);
    let group = melded[g];
    assert(melded.contains(group));
    assert(ordered.contains(group));
    let o = choose|o: int| 0 <= o < ordered.len() && ordered[o] == group;
    lemma_held_shows(group, change, line);
    assert(removes(change.changes@, line) || signals(change.changes@, line));
    assert(!hides_nothing(ordered[o]));
    assert(picks.contains(o));
    let h = choose|h: int| 0 <= h < picks.len() && picks[h] == o;
    assert(0 <= picks[h] < ordered.len());
    lemma_carries(alignment, fragment, change, group, hunks[h]);
}

/// Lines before a part are those up to the last line of an earlier unit.
proof fn lemma_lines_before(scene: PlanScene<'_>, part: int)
    requires
        0 <= part <= scene.graph.source.review_units@.len(),
    ensures
        is_gap_before(*scene.pair, *scene.graph, part, lines_before(scene, part)),
    decreases part,
{
    if part > 0 {
        lemma_lines_before(scene, part - 1);
        let units = scene.graph.source.review_units@;
        let earlier = lines_before(scene, part - 1);
        let gap = lines_before(scene, part);
        let edit = scene.graph.tree.units@[units[part - 1] as int];
        if gap != earlier {
            assert(ends_at(*scene.pair, edit, gap));
        } else if gap != 0 {
            let k = choose|k: int|
                0 <= k < part - 1 && ends_at(
                    *scene.pair,
                    scene.graph.tree.units@[(#[trigger] units[k]) as int],
                    gap,
                );
            assert(ends_at(*scene.pair, scene.graph.tree.units@[units[k] as int], gap));
        }
        assert forall|k: int, line: int|
            0 <= k < part && #[trigger] ends_at(
                *scene.pair,
                scene.graph.tree.units@[units[k] as int],
                line,
            ) implies line <= gap by {
            if k == part - 1 {
                assert(line <= gap);
            }
        }
    }
}

/// The line is the last one of the unit in the current file.
pub open spec fn ends_at(pair: SyntaxPair, edit: UnitEdit, line: int) -> bool {
    match edit {
        UnitEdit::Matched(unit) => pair.after.nodes@[unit.after as int].lines.end == line + 1,
        UnitEdit::Added { after } => pair.after.nodes@[after as int].lines.end == line + 1,
        UnitEdit::Removed { before } => false,
    }
}

/// The gap lies behind the last current line of all reviewed units before the part.
pub open spec fn is_gap_before(
    pair: SyntaxPair,
    graph: Correspondence,
    part: int,
    gap: int,
) -> bool {
    let units = graph.source.review_units@;
    &&& 0 <= gap
    &&& forall|k: int, line: int|
        0 <= k < part && #[trigger] ends_at(
            pair,
            graph.tree.units@[units[k] as int],
            line,
        ) ==> line <= gap
    &&& gap == 0 || exists|k: int|
        0 <= k < part && ends_at(pair, graph.tree.units@[(#[trigger] units[k]) as int], gap)
}

/// The hunk replaces every old line of the node.
pub open spec fn removes_node(hunk: RefinedHunk, tree: SyntaxTree, id: int) -> bool {
    forall|line: usize|
        holds_line(tree, id, line as int) ==> #[trigger] removes(hunk.changes@, line)
}

/// The hunk displays all current lines at most three lines away from a line.
pub open spec fn displays_around(hunk: RefinedHunk, tree: SyntaxTree, line: int) -> bool {
    forall|other: usize|
        1 <= other <= tree.source.line_seq().len() && line - 3 <= other <= line + 3
            ==> #[trigger] displays(hunk.changes@, other)
}

/// Where not all units are compared line by line, a removed unit is shown in one hunk, in the gap behind the last current line of the reviewed
/// units before it in the edit script: the hunk displays the current lines around the line that
/// follows the gap, or, where none does, around the last one.
pub proof fn law_removed_units_stand_behind_earlier_units(
    pair: SyntaxPair,
    graph: Correspondence,
    hunks: Seq<RefinedHunk>,
    part: int,
    id: usize,
    gap: int,
)
    requires
        pair.wf(),
        graph.wf(pair),
        hunks_review(pair, graph, hunks),
        !(all_linewise(pair.before) && all_linewise(pair.after)),
        0 <= part < graph.source.review_units@.len(),
        graph.tree.units@[graph.source.review_units@[part] as int] == (UnitEdit::Removed {
            before: id,
        }),
        exists|line: int| #[trigger] holds_line(pair.before, id as int, line),
        is_gap_before(pair, graph, part, gap),
    ensures
        exists|h: int|
            0 <= h < hunks.len() && #[trigger] removes_node(hunks[h], pair.before, id as int) && (
            pair.after.source.line_seq().len() > 0 ==> displays_around(
                hunks[h],
                pair.after,
                if gap < pair.after.source.line_seq().len() {
                    gap + 1
                } else {
                    pair.after.source.line_seq().len() as int
                },
            )),
{
    pair.before.source.lemma_line_count();
    pair.after.source.lemma_line_count();
    let alignment = alignment_of(pair, graph);
    let (anchors, fragments) = choose|anchors: AnchorFacts, fragments: Seq<Fragment>| #[trigger]
        is_plan(pair, graph, anchors, fragments) && is_review_of(pair, graph, anchors, fragments, hunks) && claims_kept(fragments, hunks);
    let scene = PlanScene { pair: &pair, graph: &graph, anchors: &anchors };
    let units = graph.source.review_units@;
    let count = (units.len() + graph.source.fallbacks@.len()) as int;
    let cuts = choose|cuts: Seq<int>| #[trigger] parts_planned(scene, fragments, cuts, count);
    let first = choose|line: int| #[trigger] holds_line(pair.before, id as int, line);
    lemma_removed_part(scene, fragments, cuts, count, part, id, first as usize);
    let at = cuts[part];
    let order = fragments[at].order_hint->0;
    let sequence = choose|sequence: Option<ReviewSequence>| #[trigger]
        are_assembled(alignment, sequence, fragments, hunks);
    law_fragments_are_carried_whole(alignment, sequence, fragments, hunks, at, first as usize);
    let h = choose|h: int|
        0 <= h < hunks.len() && #[trigger] carries(alignment, fragments[at], hunks[h]);
    assert(removes_node(hunks[h], pair.before, id as int)) by {
        assert forall|line: usize| holds_line(pair.before, id as int, line as int) implies
            #[trigger] removes(hunks[h].changes@, line) by {
            lemma_removed_part(scene, fragments, cuts, count, part, id, line);
        }
    }
    lemma_lines_before(scene, part);
    lemma_gap_unique(pair, graph, part, gap, lines_before(scene, part));
    if pair.after.source.line_seq().len() > 0 {
        let line = hint_line(order, alignment.after_lines as int);
        assert forall|other: usize|
            1 <= other <= pair.after.source.line_seq().len() && line - 3 <= other <= line
                + 3 implies #[trigger] displays(hunks[h].changes@, other) by {
            assert(in_halo(line as usize, other, alignment.after_lines as int));
        }
    }
}

/// There is one gap behind the earlier units.
proof fn lemma_gap_unique(pair: SyntaxPair, graph: Correspondence, part: int, left: int, right: int)
    requires
        is_gap_before(pair, graph, part, left),
        is_gap_before(pair, graph, part, right),
    ensures
        left == right,
{
}

/// The fragment of a removed unit replaces its lines and stands behind the earlier units.
proof fn lemma_removed_part(
    scene: PlanScene<'_>,
    fragments: Seq<Fragment>,
    cuts: Seq<int>,
    count: int,
    part: int,
    id: usize,
    line: usize,
)
    requires
        scene.wf(),
        parts_planned(scene, fragments, cuts, count),
        0 <= part < scene.graph.source.review_units@.len() <= count,
        scene.graph.tree.units@[scene.graph.source.review_units@[part] as int] == (
        UnitEdit::Removed { before: id }),
        holds_line(scene.pair.before, id as int, line as int),
    ensures
        0 <= cuts[part] < fragments.len(),
        removes(fragments[cuts[part]].excerpt.changes@, line),
        fragments[cuts[part]].order_hint is Some,
        fragments[cuts[part]].order_hint->0.after_gap.lines == lines_before(scene, part),
        fragments[cuts[part]].signal != Signal::Move,
{
    reveal(parts_planned);
    reveal(edit_planned);
    scene.pair.before.source.lemma_line_count();
    let edit = scene.graph.tree.units@[scene.graph.source.review_units@[part] as int];
    let piece = fragments.subrange(cuts[part], cuts[part + 1]);
    assert(part_planned(scene, part, piece));
    assert(is_run(fragments, cuts[part], cuts[part + 1]));
    assert(edit_planned(scene, edit, piece));
    assert(edit_placed(scene, edit, lines_before(scene, part), piece));
    assert(one_sided_planned(scene, id as int, true, piece));
    assert(crate::correspondence::geometry::row_span(scene.pair.before, id as int).has(line - 1));
    assert(piece.len() == 1);
    assert(piece[0] == fragments[cuts[part]]);
    let rows = crate::correspondence::geometry::row_span(scene.pair.before, id as int);
    let change = piece[0].excerpt.changes@[0];
    if let SourceChange::Replace { before, after, line_endings } = change {
        assert(before@[line - 1 - rows.start].number == line);
        assert(names_line(before@, line));
    }
    assert(removed_by(piece[0].excerpt.changes@[0], line));
}

} // verus!

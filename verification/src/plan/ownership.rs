//! Who owns a line: the parts of a review share no rows, and none shows a row twice.

use crate::correspondence::fallbacks::{
    covers_after, covers_before, edit_after, edit_before, edit_changes, edit_rows_exist,
    fallbacks_meet, geometries_of, geometry_of, is_contested, side_of,
};
use crate::correspondence::facts::{Facts, PrintMode};
use crate::correspondence::likeness::{alike, law_relation_is_the_strongest_equality, text_of};
use crate::correspondence::contexts::Scene;
use crate::correspondence::geometry::{row_span, RowTexts};
use crate::correspondence::lines::{PhysicalLineFacts, RowPairs};
use crate::correspondence::links::{ContentRelation, MatchedUnit, Placement, UnitEdit};
use crate::correspondence::partners::Partners;
use crate::correspondence::script::matched_ok;
use crate::correspondence::units::UnitRecord;
use crate::correspondence::scopes::ScopeProof;
use crate::correspondence::tree::{edit_fits, TreeDiff};
use crate::correspondence::{
    has_matching, is_matching, is_row_projection, is_suppressed, link_in, projects_rows,
    Correspondence,
};
use crate::plan::edits::{
    are_comment_edits, are_unit_dependents, edits_compete, is_comment, PresentationDependents,
};
use crate::plan::excerpts::{law_regions_own_rows_once, Excerpt};
use crate::plan::facts::AnchorBasis;
use crate::plan::payload::{
    are_payload_edits, lemma_comment_reflow, lemma_payload_reflows_nothing, on_comment,
    payload_rows_shown, payload_spreads, payload_woven, reflow_claims, reflow_woven, row_clean,
    unit_drawn, unit_rows_accounted,
};
use crate::plan::rows::{is_replacement, LineEdit};
use crate::plan::scene::{AnchorFacts, PlanScene};
use crate::plan::tally::{
    change_weight, claims_in, excerpts_tally, hunks_tally, lemma_numbered_range, lemma_run_holds,
    lemma_run_nothing, lemma_run_once, lemma_total_join, lemma_total_push, run_total, Claim,
};
use crate::plan::units::{
    are_first_edits, comments_planned, edit_planned, excerpts_of, is_moved, is_run, is_tall,
    part_planned, parts_planned, payload_planned, Fragment,
};
use crate::plan::{
    all_linewise, is_review_of, claims_kept, fragment_weight, fragments_tally, hunks_review,
    is_plan, law_fallbacks_own_rows_once, law_linewise_files_own_lines_once, lemma_excerpts_tally,
};
use crate::review::{RefinedHunk, SourceChange};
use crate::span::Span;
use crate::syntax::{ContentChannel, Language, ReviewMode, SyntaxPair, SyntaxTree};
use vstd::prelude::*;

verus! {

/// The claim is about a row of one of the ranges: an old row of the first, or a current row of
/// the second.
pub open spec fn lies_on(claim: Claim, before: Span, after: Span) -> bool {
    match claim {
        Claim::Removed(line) | Claim::Unwired(line) => before.has(line - 1),
        Claim::Added(line)
        | Claim::Edited(line)
        | Claim::Reflowed(line)
        | Claim::Moved(line)
        | Claim::Wired(line) => after.has(line - 1),
    }
}

/// The claim is about an old line.
spec fn is_old(claim: Claim) -> bool {
    claim is Removed || claim is Unwired
}

/// Row that the claim is about.
spec fn row_of(claim: Claim) -> int {
    match claim {
        Claim::Removed(line) | Claim::Unwired(line) => line - 1,
        Claim::Added(line)
        | Claim::Edited(line)
        | Claim::Reflowed(line)
        | Claim::Moved(line)
        | Claim::Wired(line) => line - 1,
    }
}

/// The unit edit weaves edits into the rows of a unit whose structure is compared.
pub open spec fn weaves(edit: UnitEdit) -> bool {
    edit matches UnitEdit::Matched(unit) && unit.mode == ReviewMode::StructureAware
        && unit.relation.strength() < 2
}

/// One fragment of one change claims what the change claims.
proof fn lemma_lone_change(fragments: Seq<Fragment>, claim: Claim)
    requires
        fragments.len() == 1,
        fragments[0].excerpt.changes@.len() == 1,
    ensures
        fragments_tally(fragments, claim) == claims_in(fragments[0].excerpt.changes@[0], claim),
{
    let changes = fragments[0].excerpt.changes@;
    assert(fragments =~= Seq::<Fragment>::empty().push(fragments[0]));
    lemma_total_push(Seq::<Fragment>::empty(), fragments[0], fragment_weight(claim));
    assert(changes =~= Seq::<SourceChange>::empty().push(changes[0]));
    lemma_total_push(Seq::<SourceChange>::empty(), changes[0], change_weight(claim));
}

/// What fragments of a unit edit claim, they claim once, and of rows of the unit; where nothing
/// changes, they claim nothing.
proof fn lemma_edit_claims(
    scene: PlanScene<'_>,
    edit: UnitEdit,
    fragments: Seq<Fragment>,
    claim: Claim,
)
    requires
        scene.wf(),
        edit_planned(scene, edit, fragments),
        !weaves(edit),
        edit_before(*scene.pair, edit).start <= edit_before(*scene.pair, edit).end
            < usize::MAX,
        edit_after(*scene.pair, edit).start <= edit_after(*scene.pair, edit).end < usize::MAX,
    ensures
        fragments_tally(fragments, claim) <= 1,
        fragments_tally(fragments, claim) > 0 ==> edit_changes(edit) && lies_on(
            claim,
            edit_before(*scene.pair, edit),
            edit_after(*scene.pair, edit),
        ),
{
    reveal(edit_planned);
    let before = edit_before(*scene.pair, edit);
    let after = edit_after(*scene.pair, edit);
    if fragments.len() == 0 {
        assert(fragments_tally(fragments, claim) == 0);
    } else {
        match edit {
            UnitEdit::Matched(unit) => {
                if is_moved(unit) {
                    lemma_lone_change(fragments, claim);
                } else if unit.mode == ReviewMode::StructureAware {
                    lemma_excerpts_tally(fragments, claim);
                    assert(fragments_tally(fragments, claim) == reflow_claims(
                        scene,
                        before,
                        after,
                        claim,
                    ));
                } else if unit.mode == ReviewMode::Linewise || is_tall(scene, unit) {
                    let basis = choose|basis: AnchorBasis| #[trigger]
                        unit_drawn(scene, unit, basis, excerpts_of(fragments));
                    lemma_excerpts_tally(fragments, claim);
                    law_regions_own_rows_once(
                        scene,
                        before,
                        after,
                        scene.graph.tree.composites@.subrange(
                            unit.composites.start as int,
                            unit.composites.end as int,
                        ),
                        basis,
                        excerpts_of(fragments),
                        claim,
                    );
                } else {
                    lemma_lone_change(fragments, claim);
                }
            },
            UnitEdit::Removed { before: id } => {
                lemma_lone_change(fragments, claim);
                lemma_replaced(fragments[0].excerpt.changes@[0], before, after, claim);
            },
            UnitEdit::Added { after: id } => {
                lemma_lone_change(fragments, claim);
                lemma_replaced(fragments[0].excerpt.changes@[0], before, after, claim);
            },
        }
    }
}

/// A replacement claims each of its rows once.
proof fn lemma_replaced(change: SourceChange, before: Span, after: Span, claim: Claim)
    requires
        is_replacement(change, before, after),
        before.start <= before.end,
        after.start <= after.end,
    ensures
        claims_in(change, claim) <= 1,
        claims_in(change, claim) > 0 ==> lies_on(claim, before, after),
{
    if let SourceChange::Replace { before: removed, after: added, line_endings } = change {
        match claim {
            Claim::Removed(line) => {
                lemma_numbered_range(removed@, before, line);
            },
            Claim::Added(line) => {
                lemma_numbered_range(added@, after, line);
            },
            _ => {},
        }
    }
}

/// How often a part of the fragments makes the claim.
spec fn part_weight(
    fragments: Seq<Fragment>,
    cuts: Seq<int>,
    claim: Claim,
) -> spec_fn(int) -> nat {
    |k: int| fragments_tally(fragments.subrange(cuts[k], cuts[k + 1]), claim)
}

/// The fragments claim what their parts claim.
proof fn lemma_parts_tally(
    scene: PlanScene<'_>,
    fragments: Seq<Fragment>,
    cuts: Seq<int>,
    count: int,
    upto: int,
    claim: Claim,
)
    requires
        parts_planned(scene, fragments, cuts, count),
        0 <= upto <= count,
    ensures
        0 <= cuts[upto] <= fragments.len(),
        fragments_tally(fragments.take(cuts[upto]), claim) == run_total(
            part_weight(fragments, cuts, claim),
            0,
            upto,
        ),
    decreases upto,
{
    reveal(parts_planned);
    if upto > 0 {
        let k = upto - 1;
        lemma_parts_tally(scene, fragments, cuts, count, k, claim);
        assert(is_run(fragments, cuts[k], cuts[k + 1]));
        let front = fragments.take(cuts[k]);
        let back = fragments.subrange(cuts[k], cuts[k + 1]);
        assert(fragments.take(cuts[upto]) =~= front + back);
        lemma_total_join(front, back, fragment_weight(claim));
    } else {
        assert(fragments.take(cuts[0]) =~= Seq::<Fragment>::empty());
    }
}

/// Rows of a part: those of a reviewed unit, or past those of a fallback.
spec fn part_rows(pair: SyntaxPair, graph: Correspondence, part: int) -> (Span, Span) {
    let units = graph.source.review_units@;
    if part < units.len() {
        let edit = graph.tree.units@[units[part] as int];
        (edit_before(pair, edit), edit_after(pair, edit))
    } else {
        let fallback = graph.source.fallbacks@[part - units.len()];
        (fallback.before, fallback.after)
    }
}

/// The part is a fallback, or a unit that changes.
spec fn part_changes(graph: Correspondence, part: int) -> bool {
    let units = graph.source.review_units@;
    part < units.len() ==> edit_changes(graph.tree.units@[units[part] as int])
}

/// Two parts of a review of which one changes share no row.
proof fn lemma_parts_apart(
    pair: SyntaxPair,
    graph: Correspondence,
    left: int,
    right: int,
    claim: Claim,
)
    requires
        graph.wf(pair),
        pair.before.language != Language::Lines,
        is_row_projection(pair, graph.tree, graph.source),
        0 <= left < right < graph.source.review_units@.len() + graph.source.fallbacks@.len(),
        part_changes(graph, left),
        lies_on(claim, part_rows(pair, graph, left).0, part_rows(pair, graph, left).1),
    ensures
        !lies_on(claim, part_rows(pair, graph, right).0, part_rows(pair, graph, right).1),
{
    let (pairs, proofs, texts, physical) = choose|
        pairs: RowPairs,
        proofs: ScopeProof,
        texts: RowTexts,
        physical: PhysicalLineFacts,
    | #[trigger]
        projects_rows(pair, graph.tree, graph.source, pairs, proofs, texts, physical);
    let units = graph.source.review_units@;
    let fallbacks = graph.source.fallbacks@;
    let row = row_of(claim);
    if !lies_on(claim, part_rows(pair, graph, right).0, part_rows(pair, graph, right).1) {
    } else if left >= units.len() {
        let a = fallbacks[left - units.len()];
        let b = fallbacks[right - units.len()];
        assert(!fallbacks_meet(a, b));
    } else {
        let first = units[left] as int;
        let edit = graph.tree.units@[first];
        assert(units.contains(first as usize));
        assert(!is_suppressed(pair, fallbacks, edit));
        if right >= units.len() {
            let b = fallbacks[right - units.len()];
            assert(is_suppressed(pair, fallbacks, edit));
        } else {
            let second = units[right] as int;
            let geometries = geometries_of(pair, pairs, graph.tree);
            assert(units[left] < units[right]);
            assert(geometries[first] == geometry_of(pair, pairs, edit));
            assert(geometries[second] == geometry_of(pair, pairs, graph.tree.units@[second]));
            assert(side_of(geometries[first], is_old(claim)).has(row));
            assert(side_of(geometries[second], is_old(claim)).has(row));
            assert(is_contested(geometries, geometries.len() as int, row, is_old(claim)));
            if is_old(claim) {
                assert(covers_before(fallbacks, row));
                let k = choose|k: int|
                    0 <= k < fallbacks.len() && (#[trigger] fallbacks[k]).before.has(row);
                assert(is_suppressed(pair, fallbacks, edit));
            } else {
                assert(covers_after(fallbacks, row));
                let k = choose|k: int|
                    0 <= k < fallbacks.len() && (#[trigger] fallbacks[k]).after.has(row);
                assert(is_suppressed(pair, fallbacks, edit));
            }
        }
    }
}

/// Every line is owned by one row: over all hunks of a file no claim is made twice, be it on a
/// removed, added, edited, reflowed, moved or wired line. Units whose structure is compared and
/// whose payload or comments changed weave edits into their rows; what those own is told unit by
/// unit.
pub proof fn law_files_own_lines_once(
    pair: SyntaxPair,
    graph: Correspondence,
    hunks: Seq<RefinedHunk>,
    claim: Claim,
)
    requires
        pair.wf(),
        graph.wf(pair),
        pair.before.language != Language::Lines,
        is_row_projection(pair, graph.tree, graph.source),
        hunks_review(pair, graph, hunks),
        forall|k: int|
            0 <= k < graph.source.review_units@.len() ==> !weaves(
                graph.tree.units@[(#[trigger] graph.source.review_units@[k]) as int],
            ),
    ensures
        hunks_tally(hunks, claim) <= 1,
{
    if all_linewise(pair.before) && all_linewise(pair.after) {
        law_linewise_files_own_lines_once(pair, graph, hunks, claim);
    } else {
        let (anchors, fragments) = choose|anchors: AnchorFacts, fragments: Seq<Fragment>| #[trigger]
            is_plan(pair, graph, anchors, fragments) && is_review_of(pair, graph, anchors, fragments, hunks)
                && claims_kept(fragments, hunks);
        let scene = PlanScene { pair: &pair, graph: &graph, anchors: &anchors };
        let units = graph.source.review_units@;
        let count = (units.len() + graph.source.fallbacks@.len()) as int;
        let cuts = choose|cuts: Seq<int>| #[trigger] parts_planned(scene, fragments, cuts, count);
        let weight = part_weight(fragments, cuts, claim);
        pair.before.source.lemma_line_count();
        pair.after.source.lemma_line_count();
        assert(hunks_tally(hunks, claim) == fragments_tally(fragments, claim));
        assert forall|k: int| 0 <= k < count implies #[trigger] weight(k) <= 1 && (weight(k) > 0
            ==> part_changes(graph, k) && lies_on(
            claim,
            part_rows(pair, graph, k).0,
            part_rows(pair, graph, k).1,
        )) by {
            lemma_part_claims(scene, fragments, cuts, count, k, claim);
        }
        assert forall|i: int, j: int| 0 <= i < j < count implies #[trigger] weight(i) == 0
            || #[trigger] weight(j) == 0 by {
            if weight(i) > 0 && weight(j) > 0 {
                lemma_parts_apart(pair, graph, i, j, claim);
            }
        }
        lemma_run_once(weight, 0, count);
        lemma_parts_tally(scene, fragments, cuts, count, count, claim);
        assert(fragments.take(cuts[count]) =~= fragments) by {
            reveal(parts_planned);
        }
    }
}

/// What a part claims, it claims once, and of its rows.
proof fn lemma_part_claims(
    scene: PlanScene<'_>,
    fragments: Seq<Fragment>,
    cuts: Seq<int>,
    count: int,
    part: int,
    claim: Claim,
)
    requires
        scene.wf(),
        parts_planned(scene, fragments, cuts, count),
        count == scene.graph.source.review_units@.len() + scene.graph.source.fallbacks@.len(),
        0 <= part < count,
        forall|k: int|
            0 <= k < scene.graph.source.review_units@.len() ==> !weaves(
                scene.graph.tree.units@[(#[trigger] scene.graph.source.review_units@[k]) as int],
            ),
    ensures
        part_weight(fragments, cuts, claim)(part) <= 1,
        part_weight(fragments, cuts, claim)(part) > 0 ==> part_changes(*scene.graph, part)
            && lies_on(
            claim,
            part_rows(*scene.pair, *scene.graph, part).0,
            part_rows(*scene.pair, *scene.graph, part).1,
        ),
{
    reveal(parts_planned);
    let units = scene.graph.source.review_units@;
    let piece = fragments.subrange(cuts[part], cuts[part + 1]);
    assert(part_planned(scene, part, piece));
    scene.pair.before.source.lemma_line_count();
    scene.pair.after.source.lemma_line_count();
    if part < units.len() {
        let edit = scene.graph.tree.units@[units[part] as int];
        assert(edit_fits(
            edit,
            scene.pair.before.nodes@.len() as int,
            scene.pair.after.nodes@.len() as int,
            scene.graph.tree.leaves.links@.len() as int,
            scene.graph.tree.composites@.len() as int,
        ));
        lemma_edit_rows(scene, edit);
        lemma_edit_claims(scene, edit, piece, claim);
    } else {
        law_fallbacks_own_rows_once(
            scene,
            scene.graph.source.fallbacks@[part - units.len()],
            piece,
            claim,
        );
    }
}

/// Rows of a unit edit exist.
proof fn lemma_edit_rows(scene: PlanScene<'_>, edit: UnitEdit)
    requires
        scene.wf(),
        edit_rows_exist(*scene.pair, edit),
    ensures
        edit_before(*scene.pair, edit).start <= edit_before(*scene.pair, edit).end
            <= scene.before_count(),
        edit_after(*scene.pair, edit).start <= edit_after(*scene.pair, edit).end
            <= scene.after_count(),
{
    scene.pair.before.source.lemma_line_count();
    scene.pair.after.source.lemma_line_count();
}

/// What fragments of a unit edit reflow are rows of the unit; where nothing changes, they reflow
/// nothing.
proof fn lemma_edit_reflows(
    scene: PlanScene<'_>,
    edit: UnitEdit,
    fragments: Seq<Fragment>,
    line: usize,
)
    requires
        scene.wf(),
        edit_planned(scene, edit, fragments),
        edit_before(*scene.pair, edit).start <= edit_before(*scene.pair, edit).end
            < usize::MAX,
        edit_after(*scene.pair, edit).start <= edit_after(*scene.pair, edit).end < usize::MAX,
    ensures
        fragments_tally(fragments, Claim::Reflowed(line)) > 0 ==> edit_changes(edit) && edit_after(
            *scene.pair,
            edit,
        ).has(line - 1),
{
    let claim = Claim::Reflowed(line);
    if weaves(edit) {
        reveal(edit_planned);
        let unit = edit->Matched_0;
        let excerpts = excerpts_of(fragments);
        lemma_excerpts_tally(fragments, claim);
        if unit.relation.strength() == 1 {
            let (dependents, edits) = choose|
                dependents: PresentationDependents,
                edits: Seq<LineEdit>,
            |
                are_unit_dependents(scene, unit, dependents) && #[trigger] are_comment_edits(
                    scene,
                    unit,
                    dependents,
                    edits,
                ) && reflow_woven(scene, unit, edits, excerpts);
            lemma_comment_reflow(scene, unit, edits, excerpts, line);
        } else if unit_rows_accounted(scene, unit, excerpts) {
            let basis = choose|basis: AnchorBasis| #[trigger]
                unit_drawn(scene, unit, basis, excerpts);
            law_regions_own_rows_once(
                scene,
                edit_before(*scene.pair, edit),
                edit_after(*scene.pair, edit),
                scene.graph.tree.composites@.subrange(
                    unit.composites.start as int,
                    unit.composites.end as int,
                ),
                basis,
                excerpts,
                claim,
            );
        } else {
            let (dependents, given, edits) = choose|
                dependents: PresentationDependents,
                given: Seq<LineEdit>,
                edits: Seq<LineEdit>,
            |
                are_unit_dependents(scene, unit, dependents) && are_first_edits(
                    scene,
                    unit,
                    dependents,
                    given,
                ) && #[trigger] are_payload_edits(scene, unit, dependents, given, edits) && (
                if edits_compete(edits) || payload_spreads(scene, unit, dependents) {
                    unit_rows_accounted(scene, unit, excerpts)
                } else {
                    payload_rows_shown(scene, unit, excerpts) && payload_woven(
                        scene,
                        unit,
                        dependents,
                        edits,
                        excerpts,
                    )
                });
            lemma_payload_reflows_nothing(scene, unit, dependents, edits, excerpts, line);
        }
    } else {
        lemma_edit_claims(scene, edit, fragments, claim);
    }
}

/// What a part reflows are its rows.
proof fn lemma_part_reflows(
    scene: PlanScene<'_>,
    fragments: Seq<Fragment>,
    cuts: Seq<int>,
    count: int,
    part: int,
    line: usize,
)
    requires
        scene.wf(),
        parts_planned(scene, fragments, cuts, count),
        count == scene.graph.source.review_units@.len() + scene.graph.source.fallbacks@.len(),
        0 <= part < count,
    ensures
        part_weight(fragments, cuts, Claim::Reflowed(line))(part) > 0 ==> part_changes(
            *scene.graph,
            part,
        ) && part_rows(*scene.pair, *scene.graph, part).1.has(line - 1),
{
    reveal(parts_planned);
    let units = scene.graph.source.review_units@;
    let piece = fragments.subrange(cuts[part], cuts[part + 1]);
    assert(part_planned(scene, part, piece));
    scene.pair.before.source.lemma_line_count();
    scene.pair.after.source.lemma_line_count();
    if part < units.len() {
        let edit = scene.graph.tree.units@[units[part] as int];
        assert(edit_fits(
            edit,
            scene.pair.before.nodes@.len() as int,
            scene.pair.after.nodes@.len() as int,
            scene.graph.tree.leaves.links@.len() as int,
            scene.graph.tree.composites@.len() as int,
        ));
        lemma_edit_rows(scene, edit);
        lemma_edit_reflows(scene, edit, piece, line);
    } else {
        law_fallbacks_own_rows_once(
            scene,
            scene.graph.source.fallbacks@[part - units.len()],
            piece,
            Claim::Reflowed(line),
        );
    }
}

/// The line carries no comment of the unit.
#[verifier::opaque]
pub open spec fn comment_free(tree: SyntaxTree, unit: int, line: int) -> bool {
    forall|id: int|
        unit <= id < tree.nodes@[unit].subtree_end && ((#[trigger] tree.nodes@[id]).leaf matches Some(
            leaf,
        ) && leaf.channel == ContentChannel::Comment) ==> !(tree.nodes@[id].lines.start <= line
            < tree.nodes@[id].lines.end)
}

/// The line is one of the node, and of the file.
pub open spec fn holds_line(tree: SyntaxTree, id: int, line: int) -> bool {
    tree.nodes@[id].lines.start <= line < tree.nodes@[id].lines.end && 1 <= line
        <= tree.source.line_seq().len()
}

/// The unit is matched and its structure compared, and but for layout and comments it stayed.
pub open spec fn keeps_payload(edit: UnitEdit, unit: MatchedUnit) -> bool {
    &&& edit == UnitEdit::Matched(unit)
    &&& unit.mode == ReviewMode::StructureAware
    &&& unit.relation == ContentRelation::PayloadEqual
}

/// Units whose structure is compared stand in trees that hold such units.
proof fn lemma_not_linewise(pair: SyntaxPair, tree: TreeDiff, k: int, unit: MatchedUnit)
    requires
        has_matching(pair, tree),
        0 <= k < tree.units@.len(),
        keeps_payload(tree.units@[k], unit),
    ensures
        !(all_linewise(pair.before) && all_linewise(pair.after)),
{
    let (before_facts, after_facts, before, after, partners, stable) = choose|
        before_facts: Facts,
        after_facts: Facts,
        before: Seq<UnitRecord>,
        after: Seq<UnitRecord>,
        partners: Partners,
        stable: Seq<bool>,
    | #[trigger]
        is_matching(pair, tree, before_facts, after_facts, before, after, partners, stable);
    let scene = Scene { pair: &pair, before: &before_facts, after: &after_facts };
    assert(tree.units@[k] == UnitEdit::Matched(unit));
    assert(matched_ok(scene, before, after, partners.before@, stable, unit));
    reveal(matched_ok);
    let i = choose|i: int|
        0 <= i < before.len() && (#[trigger] before[i]).id == unit.before && (
        partners.before@[i] matches Some(j) && j < after.len() && after[j as int].id == unit.after
            && unit.mode == ReviewMode::reconciled(before[i].mode, after[j as int].mode));
    let j = partners.before@[i]->0 as int;
    assert(pair.before.nodes@[before[i].id as int].review is Some);
    assert(pair.after.nodes@[after[j].id as int].review is Some);
}

/// Some link leads from an old line of the unit without a comment to a current line of it.
#[verifier::opaque]
pub open spec fn linked_cleanly(
    pair: SyntaxPair,
    graph: Correspondence,
    unit: MatchedUnit,
    line: int,
) -> bool {
    exists|k: int|
        0 <= k < graph.source.lines@.len() && (#[trigger] graph.source.lines@[k]).after + 1 == line
            && holds_line(pair.before, unit.before as int, graph.source.lines@[k].before + 1)
            && comment_free(pair.before, unit.before as int, graph.source.lines@[k].before + 1)
}

/// A current row of a unit whose comments alone changed is no reflow where it is linked to an
/// equal old row of the unit that carries no comment.
pub proof fn law_linked_rows_do_not_reflow(
    pair: SyntaxPair,
    graph: Correspondence,
    hunks: Seq<RefinedHunk>,
    part: int,
    unit: MatchedUnit,
    line: usize,
)
    requires
        pair.wf(),
        graph.wf(pair),
        pair.before.language != Language::Lines,
        has_matching(pair, graph.tree),
        is_row_projection(pair, graph.tree, graph.source),
        hunks_review(pair, graph, hunks),
        0 <= part < graph.source.review_units@.len(),
        keeps_payload(graph.tree.units@[graph.source.review_units@[part] as int], unit),
        holds_line(pair.after, unit.after as int, line as int),
        linked_cleanly(pair, graph, unit, line as int),
    ensures
        hunks_tally(hunks, Claim::Reflowed(line)) == 0,
{
    let claim = Claim::Reflowed(line);
    let units = graph.source.review_units@;
    lemma_not_linewise(pair, graph.tree, units[part] as int, unit);
    let (anchors, fragments) = choose|anchors: AnchorFacts, fragments: Seq<Fragment>| #[trigger]
        is_plan(pair, graph, anchors, fragments) && is_review_of(pair, graph, anchors, fragments, hunks) && claims_kept(
            fragments,
            hunks,
        );
    let scene = PlanScene { pair: &pair, graph: &graph, anchors: &anchors };
    let count = (units.len() + graph.source.fallbacks@.len()) as int;
    let cuts = choose|cuts: Seq<int>| #[trigger] parts_planned(scene, fragments, cuts, count);
    let weight = part_weight(fragments, cuts, claim);
    assert(hunks_tally(hunks, claim) == fragments_tally(fragments, claim));
    lemma_linked_rows_silent(scene, fragments, cuts, count, part, unit, line);
    assert forall|k: int| 0 <= k < count implies #[trigger] weight(k) == 0 by {
        lemma_part_reflows(scene, fragments, cuts, count, k, line);
        if weight(k) > 0 {
            if k < part {
                lemma_parts_apart(pair, graph, k, part, claim);
            } else if k > part {
                lemma_parts_apart(pair, graph, part, k, claim);
            }
        }
    }
    lemma_run_nothing(weight, 0, count);
    lemma_parts_tally(scene, fragments, cuts, count, count, claim);
    assert(fragments.take(cuts[count]) =~= fragments) by {
        reveal(parts_planned);
    }
}

/// A unit does not reflow a row that is linked to an old row without a comment.
proof fn lemma_linked_rows_silent(
    scene: PlanScene<'_>,
    fragments: Seq<Fragment>,
    cuts: Seq<int>,
    count: int,
    part: int,
    unit: MatchedUnit,
    line: usize,
)
    requires
        scene.wf(),
        parts_planned(scene, fragments, cuts, count),
        count == scene.graph.source.review_units@.len() + scene.graph.source.fallbacks@.len(),
        0 <= part < scene.graph.source.review_units@.len(),
        keeps_payload(
            scene.graph.tree.units@[scene.graph.source.review_units@[part] as int],
            unit,
        ),
        holds_line(scene.pair.after, unit.after as int, line as int),
        linked_cleanly(*scene.pair, *scene.graph, unit, line as int),
    ensures
        part_weight(fragments, cuts, Claim::Reflowed(line))(part) == 0,
        part_rows(*scene.pair, *scene.graph, part).1.has(line - 1),
        part_changes(*scene.graph, part),
{
    scene.pair.before.source.lemma_line_count();
    scene.pair.after.source.lemma_line_count();
    lemma_commented_unit(scene, fragments, cuts, count, part, unit, line);
    lemma_linked_clean(scene, unit, line);
}

/// A row that is linked to an old row without a comment is clean, and no other.
proof fn lemma_linked_clean(scene: PlanScene<'_>, unit: MatchedUnit, line: usize)
    requires
        scene.pair.before.source.wf(),
        scene.pair.after.source.wf(),
        holds_line(scene.pair.after, unit.after as int, line as int),
    ensures
        row_clean(scene, unit, line - 1) <==> linked_cleanly(
            *scene.pair,
            *scene.graph,
            unit,
            line as int,
        ),
        row_span(scene.pair.after, unit.after as int).has(line - 1),
{
    reveal(linked_cleanly);
    scene.pair.before.source.lemma_line_count();
    scene.pair.after.source.lemma_line_count();
    let lines = scene.graph.source.lines@;
    let before = row_span(scene.pair.before, unit.before as int);
    let after = row_span(scene.pair.after, unit.after as int);
    assert forall|k: int| 0 <= k < lines.len() implies (link_in(
        #[trigger] lines[k],
        before,
        after,
    ) && lines[k].after == line - 1 <==> lines[k].after + 1 == line && holds_line(
        scene.pair.before,
        unit.before as int,
        lines[k].before + 1,
    )) && (link_in(lines[k], before, after) ==> (comment_free(
        scene.pair.before,
        unit.before as int,
        lines[k].before + 1,
    ) <==> !on_comment(
        scene.pair.before,
        unit.before as int,
        scene.pair.before.nodes@[unit.before as int].subtree_end as int,
        (lines[k].before + 1) as usize,
    ))) by {
        if link_in(lines[k], before, after) {
            lemma_comment_free(
                scene.pair.before,
                unit.before as int,
                (lines[k].before + 1) as usize,
            );
        }
    }
}

/// A line without a comment is on none.
proof fn lemma_comment_free(tree: SyntaxTree, unit: int, line: usize)
    ensures
        comment_free(tree, unit, line as int) <==> !on_comment(
            tree,
            unit,
            tree.nodes@[unit].subtree_end as int,
            line,
        ),
{
    reveal(comment_free);
    if !comment_free(tree, unit, line as int) {
        let id = choose|id: int|
            unit <= id < tree.nodes@[unit].subtree_end && ((
            #[trigger] tree.nodes@[id]).leaf matches Some(leaf) && leaf.channel
                == ContentChannel::Comment) && tree.nodes@[id].lines.start <= line
                < tree.nodes@[id].lines.end;
        assert(is_comment(tree.nodes@[id]));
        assert(tree.nodes@[id].lines.has(line as int));
    }
}

/// What a unit whose comments alone changed reflows, and what it adds in place of that.
proof fn lemma_commented_unit(
    scene: PlanScene<'_>,
    fragments: Seq<Fragment>,
    cuts: Seq<int>,
    count: int,
    part: int,
    unit: MatchedUnit,
    line: usize,
)
    requires
        scene.wf(),
        parts_planned(scene, fragments, cuts, count),
        count == scene.graph.source.review_units@.len() + scene.graph.source.fallbacks@.len(),
        0 <= part < scene.graph.source.review_units@.len(),
        keeps_payload(
            scene.graph.tree.units@[scene.graph.source.review_units@[part] as int],
            unit,
        ),
    ensures
        row_clean(scene, unit, line - 1) ==> part_weight(
            fragments,
            cuts,
            Claim::Reflowed(line),
        )(part) == 0,
        row_span(scene.pair.after, unit.after as int).has(line - 1) && !row_clean(
            scene,
            unit,
            line - 1,
        ) ==> part_weight(fragments, cuts, Claim::Reflowed(line))(part) + part_weight(
            fragments,
            cuts,
            Claim::Added(line),
        )(part) > 0,
{
    reveal(parts_planned);
    reveal(edit_planned);
    let units = scene.graph.source.review_units@;
    let piece = fragments.subrange(cuts[part], cuts[part + 1]);
    let edit = scene.graph.tree.units@[units[part] as int];
    assert(part_planned(scene, part, piece));
    assert(edit_planned(scene, edit, piece));
    assert(edit_fits(
        edit,
        scene.pair.before.nodes@.len() as int,
        scene.pair.after.nodes@.len() as int,
        scene.graph.tree.leaves.links@.len() as int,
        scene.graph.tree.composites@.len() as int,
    ));
    lemma_edit_rows(scene, edit);
    scene.pair.after.source.lemma_line_count();
    let excerpts = excerpts_of(piece);
    lemma_excerpts_tally(piece, Claim::Reflowed(line));
    lemma_excerpts_tally(piece, Claim::Added(line));
    let (dependents, edits) = choose|dependents: PresentationDependents, edits: Seq<LineEdit>|
        are_unit_dependents(scene, unit, dependents) && #[trigger] are_comment_edits(
            scene,
            unit,
            dependents,
            edits,
        ) && reflow_woven(scene, unit, edits, excerpts);
    lemma_comment_reflow(scene, unit, edits, excerpts, line);
}

/// A current row of a unit whose comments alone changed is shown as reflow, or as an edit, where
/// every old row of the unit that it is linked to carries a comment.
pub proof fn law_unlinked_rows_reflow_or_are_edited(
    pair: SyntaxPair,
    graph: Correspondence,
    hunks: Seq<RefinedHunk>,
    part: int,
    unit: MatchedUnit,
    line: usize,
)
    requires
        pair.wf(),
        graph.wf(pair),
        has_matching(pair, graph.tree),
        hunks_review(pair, graph, hunks),
        0 <= part < graph.source.review_units@.len(),
        keeps_payload(graph.tree.units@[graph.source.review_units@[part] as int], unit),
        holds_line(pair.after, unit.after as int, line as int),
        !linked_cleanly(pair, graph, unit, line as int),
    ensures
        hunks_tally(hunks, Claim::Reflowed(line)) + hunks_tally(hunks, Claim::Added(line)) > 0,
{
    pair.before.source.lemma_line_count();
    pair.after.source.lemma_line_count();
    let units = graph.source.review_units@;
    lemma_not_linewise(pair, graph.tree, units[part] as int, unit);
    let (anchors, fragments) = choose|anchors: AnchorFacts, fragments: Seq<Fragment>| #[trigger]
        is_plan(pair, graph, anchors, fragments) && is_review_of(pair, graph, anchors, fragments, hunks) && claims_kept(
            fragments,
            hunks,
        );
    let scene = PlanScene { pair: &pair, graph: &graph, anchors: &anchors };
    let count = (units.len() + graph.source.fallbacks@.len()) as int;
    let cuts = choose|cuts: Seq<int>| #[trigger] parts_planned(scene, fragments, cuts, count);
    lemma_commented_unit(scene, fragments, cuts, count, part, unit, line);
    lemma_linked_clean(scene, unit, line);
    let first = Claim::Reflowed(line);
    let second = Claim::Added(line);
    assert(hunks_tally(hunks, first) == fragments_tally(fragments, first));
    assert(hunks_tally(hunks, second) == fragments_tally(fragments, second));
    lemma_parts_tally(scene, fragments, cuts, count, count, first);
    lemma_parts_tally(scene, fragments, cuts, count, count, second);
    lemma_run_holds(part_weight(fragments, cuts, first), 0, count, part);
    lemma_run_holds(part_weight(fragments, cuts, second), 0, count, part);
    assert(fragments.take(cuts[count]) =~= fragments) by {
        reveal(parts_planned);
    }
}

/// Fragments of a unit edit move a row exactly where the unit kept its content and changed its
/// place, and the row is one of it.
proof fn lemma_edit_moves(scene: PlanScene<'_>, edit: UnitEdit, fragments: Seq<Fragment>, line: usize)
    requires
        scene.wf(),
        edit_planned(scene, edit, fragments),
        edit_before(*scene.pair, edit).start <= edit_before(*scene.pair, edit).end
            < usize::MAX,
        edit_after(*scene.pair, edit).start <= edit_after(*scene.pair, edit).end < usize::MAX,
    ensures
        fragments_tally(fragments, Claim::Moved(line)) > 0 <==> (edit matches UnitEdit::Matched(unit)
            && is_moved(unit)) && !edit_before(*scene.pair, edit).empty() && edit_after(
            *scene.pair,
            edit,
        ).has(line - 1),
{
    let claim = Claim::Moved(line);
    reveal(edit_planned);
    match edit {
        UnitEdit::Matched(unit) => {
            let excerpts = excerpts_of(fragments);
            if fragments.len() == 0 {
                assert(fragments_tally(fragments, claim) == 0);
            } else if is_moved(unit) {
                lemma_lone_change(fragments, claim);
            } else if weaves(edit) {
                lemma_excerpts_tally(fragments, claim);
                lemma_weaving_moves_nothing(scene, unit, excerpts, line);
            } else if unit.mode == ReviewMode::StructureAware {
                lemma_excerpts_tally(fragments, claim);
            } else if unit.mode == ReviewMode::Linewise || is_tall(scene, unit) {
                let basis = choose|basis: AnchorBasis| #[trigger]
                    unit_drawn(scene, unit, basis, excerpts);
                lemma_excerpts_tally(fragments, claim);
                lemma_drawn_moves_nothing(scene, unit, basis, excerpts, line);
            } else {
                lemma_lone_change(fragments, claim);
            }
        },
        _ => {
            if fragments.len() == 0 {
                assert(fragments_tally(fragments, claim) == 0);
            } else {
                lemma_lone_change(fragments, claim);
            }
        },
    }
}

/// Rows that are compared line by line move nothing.
proof fn lemma_drawn_moves_nothing(
    scene: PlanScene<'_>,
    unit: MatchedUnit,
    basis: AnchorBasis,
    excerpts: Seq<Excerpt>,
    line: usize,
)
    requires
        scene.wf(),
        unit_drawn(scene, unit, basis, excerpts),
    ensures
        excerpts_tally(excerpts, Claim::Moved(line)) == 0,
{
    law_regions_own_rows_once(
        scene,
        row_span(scene.pair.before, unit.before as int),
        row_span(scene.pair.after, unit.after as int),
        scene.graph.tree.composites@.subrange(
            unit.composites.start as int,
            unit.composites.end as int,
        ),
        basis,
        excerpts,
        Claim::Moved(line),
    );
}

/// Units whose payload or comments changed move nothing.
proof fn lemma_weaving_moves_nothing(
    scene: PlanScene<'_>,
    unit: MatchedUnit,
    excerpts: Seq<Excerpt>,
    line: usize,
)
    requires
        scene.wf(),
        row_span(scene.pair.after, unit.after as int).end < usize::MAX,
        comments_planned(scene, unit, excerpts) || unit_rows_accounted(scene, unit, excerpts)
            || payload_planned(scene, unit, excerpts),
    ensures
        excerpts_tally(excerpts, Claim::Moved(line)) == 0,
{
    if unit_rows_accounted(scene, unit, excerpts) {
        let basis = choose|basis: AnchorBasis| #[trigger] unit_drawn(scene, unit, basis, excerpts);
        lemma_drawn_moves_nothing(scene, unit, basis, excerpts, line);
    } else if comments_planned(scene, unit, excerpts) {
        let (dependents, edits) = choose|dependents: PresentationDependents, edits: Seq<LineEdit>|
            are_unit_dependents(scene, unit, dependents) && #[trigger] are_comment_edits(
                scene,
                unit,
                dependents,
                edits,
            ) && reflow_woven(scene, unit, edits, excerpts);
        lemma_comment_reflow(scene, unit, edits, excerpts, line);
    } else {
        let (dependents, given, edits) = choose|
            dependents: PresentationDependents,
            given: Seq<LineEdit>,
            edits: Seq<LineEdit>,
        |
            are_unit_dependents(scene, unit, dependents) && are_first_edits(
                scene,
                unit,
                dependents,
                given,
            ) && #[trigger] are_payload_edits(scene, unit, dependents, given, edits) && (
            if edits_compete(edits) || payload_spreads(scene, unit, dependents) {
                unit_rows_accounted(scene, unit, excerpts)
            } else {
                payload_rows_shown(scene, unit, excerpts) && payload_woven(
                    scene,
                    unit,
                    dependents,
                    edits,
                    excerpts,
                )
            });
        lemma_payload_reflows_nothing(scene, unit, dependents, edits, excerpts, line);
    }
}

/// The unit of a part kept its content, layout aside, and changed its place; and the line is one
/// of it.
pub open spec fn part_moves(pair: SyntaxPair, graph: Correspondence, part: int, line: int) -> bool {
    let edit = graph.tree.units@[graph.source.review_units@[part] as int];
    &&& 0 <= part < graph.source.review_units@.len()
    &&& edit matches UnitEdit::Matched(unit) && unit.placement == Placement::Reordered && (text_of(
        pair.before,
        unit.before as int,
    ) == text_of(pair.after, unit.after as int) || alike(
        pair.before,
        unit.before as int,
        pair.after,
        unit.after as int,
        PrintMode::Full,
    )) && holds_line(pair.after, unit.after as int, line) && exists|old_line: int| #[trigger]
        holds_line(pair.before, unit.before as int, old_line)
}

/// Part of a plan whose unit moves a line.
proof fn lemma_part_moves(
    scene: PlanScene<'_>,
    fragments: Seq<Fragment>,
    cuts: Seq<int>,
    count: int,
    part: int,
    line: usize,
)
    requires
        scene.wf(),
        has_matching(*scene.pair, scene.graph.tree),
        parts_planned(scene, fragments, cuts, count),
        count == scene.graph.source.review_units@.len() + scene.graph.source.fallbacks@.len(),
        0 <= part < count,
    ensures
        part_weight(fragments, cuts, Claim::Moved(line))(part) > 0 <==> part_moves(
            *scene.pair,
            *scene.graph,
            part,
            line as int,
        ),
{
    reveal(parts_planned);
    let units = scene.graph.source.review_units@;
    let piece = fragments.subrange(cuts[part], cuts[part + 1]);
    assert(part_planned(scene, part, piece));
    scene.pair.before.source.lemma_line_count();
    scene.pair.after.source.lemma_line_count();
    if part < units.len() {
        let edit = scene.graph.tree.units@[units[part] as int];
        assert(edit_fits(
            edit,
            scene.pair.before.nodes@.len() as int,
            scene.pair.after.nodes@.len() as int,
            scene.graph.tree.leaves.links@.len() as int,
            scene.graph.tree.composites@.len() as int,
        ));
        lemma_edit_rows(scene, edit);
        lemma_edit_moves(scene, edit, piece, line);
        law_relation_is_the_strongest_equality(
            *scene.pair,
            scene.graph.tree,
            units[part] as int,
        );
        if let UnitEdit::Matched(unit) = edit {
            lemma_holds_row(scene.pair.after, unit.after as int, line as int);
            lemma_holds_some_row(scene.pair.before, unit.before as int);
        }
    } else {
        law_fallbacks_own_rows_once(
            scene,
            scene.graph.source.fallbacks@[part - units.len()],
            piece,
            Claim::Moved(line),
        );
    }
}

/// Rows of a node are its lines, counted from zero.
proof fn lemma_holds_row(tree: SyntaxTree, id: int, line: int)
    requires
        tree.source.wf(),
    ensures
        row_span(tree, id).has(line - 1) <==> holds_line(tree, id, line),
{
    tree.source.lemma_line_count();
}

/// A node with rows holds a line.
proof fn lemma_holds_some_row(tree: SyntaxTree, id: int)
    requires
        tree.source.wf(),
    ensures
        !row_span(tree, id).empty() <==> exists|line: int| #[trigger] holds_line(tree, id, line),
{
    tree.source.lemma_line_count();
    let rows = row_span(tree, id);
    if !rows.empty() {
        lemma_holds_row(tree, id, rows.start + 1);
        assert(holds_line(tree, id, rows.start + 1));
    }
    if exists|line: int| #[trigger] holds_line(tree, id, line) {
        let line = choose|line: int| #[trigger] holds_line(tree, id, line);
        lemma_holds_row(tree, id, line);
    }
}

/// Where not all units are compared line by line, a current line is shown as moved exactly where
/// it belongs to a reviewed unit that changed its place and, layout aside, nothing else.
pub proof fn law_moves_are_units_that_changed_only_place(
    pair: SyntaxPair,
    graph: Correspondence,
    hunks: Seq<RefinedHunk>,
    line: usize,
)
    requires
        pair.wf(),
        graph.wf(pair),
        has_matching(pair, graph.tree),
        hunks_review(pair, graph, hunks),
        !(all_linewise(pair.before) && all_linewise(pair.after)),
    ensures
        hunks_tally(hunks, Claim::Moved(line)) > 0 <==> exists|part: int| #[trigger]
            part_moves(pair, graph, part, line as int),
{
    let claim = Claim::Moved(line);
    let units = graph.source.review_units@;
    let (anchors, fragments) = choose|anchors: AnchorFacts, fragments: Seq<Fragment>| #[trigger]
        is_plan(pair, graph, anchors, fragments) && is_review_of(pair, graph, anchors, fragments, hunks) && claims_kept(fragments, hunks);
    let scene = PlanScene { pair: &pair, graph: &graph, anchors: &anchors };
    let count = (units.len() + graph.source.fallbacks@.len()) as int;
    let cuts = choose|cuts: Seq<int>| #[trigger] parts_planned(scene, fragments, cuts, count);
    let weight = part_weight(fragments, cuts, claim);
    assert(hunks_tally(hunks, claim) == fragments_tally(fragments, claim));
    lemma_parts_tally(scene, fragments, cuts, count, count, claim);
    assert(fragments.take(cuts[count]) =~= fragments) by {
        reveal(parts_planned);
    }
    if exists|part: int| #[trigger] part_moves(pair, graph, part, line as int) {
        let part = choose|part: int| #[trigger] part_moves(pair, graph, part, line as int);
        lemma_part_moves(scene, fragments, cuts, count, part, line);
        lemma_run_holds(weight, 0, count, part);
    } else {
        assert forall|k: int| 0 <= k < count implies #[trigger] weight(k) == 0 by {
            lemma_part_moves(scene, fragments, cuts, count, k, line);
        }
        lemma_run_nothing(weight, 0, count);
    }
}

} // verus!

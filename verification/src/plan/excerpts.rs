//! Excerpts: signals with the context that explains them.

use crate::context::{
    are_open_runs, are_runs, breadcrumb_halo_indices, context_gap_fits_halos, context_halo_range,
    is_row, lemma_runs_step, ranges_apart, review_selection_ranges, selects,
};
use crate::correspondence::lines::rows_ascend;
use crate::correspondence::links::{LineLink, NodeLink};
use crate::correspondence::scopes::{ascending, insert_ascending};
use crate::correspondence::{link_in, links_in};
use crate::plan::alignment_of;
use crate::plan::facts::{
    after_of, are_region_facts, before_of, fact_ok, facts_ok, lemma_no_reflow_facts,
    lemma_tiles_cover_after, lemma_tiles_cover_before, region_facts, start_of, tiles, AnchorBasis,
    Corner, LineFact,
};
use crate::plan::rows::{coverage_fits, include_line, include_rows, is_replacement, replacement};
use crate::plan::scene::PlanScene;
use crate::plan::tally::{
    change_weight, claims_in, excerpt_weight, excerpts_tally, lemma_between, lemma_numbered_range,
    lemma_tally_plain, lemma_tally_push, lemma_total_join, lemma_total_push, tally, Claim,
};
use crate::review::{change_fits, changes_fit, is_line, LineCoverage, SourceChange};
use crate::span::Span;
use crate::syntax::{lemma_leaf_positions, NodeId, SyntaxTree};
use vstd::prelude::*;

verus! {

/// Producer-local source excerpt with its changes and coverage.
pub struct Excerpt {
    pub coverage: LineCoverage,
    pub changes: Vec<SourceChange>,
}

impl Excerpt {
    /// Every line that the excerpt names exists.
    pub open spec fn fits(self, scene: PlanScene<'_>) -> bool {
        &&& changes_fit(self.changes@, scene.before_count(), scene.after_count())
        &&& coverage_fits(self.coverage, scene.before_count(), scene.after_count())
    }
}

pub open spec fn excerpts_fit(scene: PlanScene<'_>, excerpts: Seq<Excerpt>) -> bool {
    forall|k: int| 0 <= k < excerpts.len() ==> (#[trigger] excerpts[k]).fits(scene)
}

/// Some change replaces exactly these rows.
pub open spec fn shows_replacement(changes: Seq<SourceChange>, before: Span, after: Span) -> bool {
    exists|k: int| 0 <= k < changes.len() && is_replacement(#[trigger] changes[k], before, after)
}

/// An exact match inside both ranges ends in the current row.
pub open spec fn row_matched(scene: PlanScene<'_>, before: Span, after: Span, row: int) -> bool {
    exists|k: int|
        0 <= k < scene.graph.source.lines@.len() && link_in(
            #[trigger] scene.graph.source.lines@[k],
            before,
            after,
        ) && scene.graph.source.lines@[k].after == row
}

/// A row of retained structure: plain where it is matched exactly, and else reflow.
pub open spec fn row_change(
    scene: PlanScene<'_>,
    before: Span,
    after: Span,
    row: int,
) -> SourceChange {
    if row_matched(scene, before, after, row) {
        SourceChange::Context((row + 1) as usize)
    } else {
        SourceChange::Reflow((row + 1) as usize)
    }
}

/// The row of retained structure is shown.
pub open spec fn shows_retained_row(
    scene: PlanScene<'_>,
    changes: Seq<SourceChange>,
    before: Span,
    after: Span,
    row: int,
) -> bool {
    changes.contains(row_change(scene, before, after, row))
}

/// How often a fact makes the claim: a replacement removes its old rows and adds its current
/// ones, and retained structure reflows the rows that are not matched exactly.
pub open spec fn fact_claims(scene: PlanScene<'_>, fact: LineFact, claim: Claim) -> nat {
    match (fact, claim) {
        (LineFact::Edit { before, after }, Claim::Removed(line)) => if before.has(line - 1) {
            1
        } else {
            0
        },
        (LineFact::Edit { before, after }, Claim::Added(line)) => if after.has(line - 1) {
            1
        } else {
            0
        },
        (LineFact::TerminatorEdit { before, after }, Claim::Removed(line)) => if before + 1 == line {
            1
        } else {
            0
        },
        (LineFact::TerminatorEdit { before, after }, Claim::Added(line)) => if after + 1 == line {
            1
        } else {
            0
        },
        (LineFact::Reflow { before, after }, Claim::Reflowed(line)) => if after.has(line - 1)
            && !row_matched(scene, before, after, line - 1) {
            1
        } else {
            0
        },
        _ => 0,
    }
}

/// How often the facts of a range make the claim.
pub open spec fn facts_tally(
    scene: PlanScene<'_>,
    facts: Seq<LineFact>,
    start: int,
    end: int,
    claim: Claim,
) -> nat
    decreases end - start,
{
    if end <= start {
        0
    } else {
        facts_tally(scene, facts, start, end - 1, claim) + fact_claims(scene, facts[end - 1], claim)
    }
}

/// How often the first facts make the claim, as far as a range holds them.
spec fn selected_tally(
    scene: PlanScene<'_>,
    facts: Seq<LineFact>,
    ranges: Seq<Span>,
    end: int,
    claim: Claim,
) -> nat
    decreases end,
{
    if end <= 0 {
        0
    } else {
        selected_tally(scene, facts, ranges, end - 1, claim) + if selects(ranges, end - 1) {
            fact_claims(scene, facts[end - 1], claim)
        } else {
            0
        }
    }
}

/// Facts that no range holds add nothing.
proof fn lemma_unselected(
    scene: PlanScene<'_>,
    facts: Seq<LineFact>,
    ranges: Seq<Span>,
    start: int,
    end: int,
    claim: Claim,
)
    requires
        0 <= start <= end,
        forall|i: int| start <= i < end ==> !#[trigger] selects(ranges, i),
    ensures
        selected_tally(scene, facts, ranges, end, claim) == selected_tally(
            scene,
            facts,
            ranges,
            start,
            claim,
        ),
    decreases end - start,
{
    if start < end {
        lemma_unselected(scene, facts, ranges, start, end - 1, claim);
        assert(!selects(ranges, end - 1));
    }
}

/// Where ranges hold a run of facts, and besides it only unchanged rows, they claim what the run
/// claims.
proof fn lemma_selected_run(
    scene: PlanScene<'_>,
    facts: Seq<LineFact>,
    ranges: Seq<Span>,
    first: int,
    last: int,
    end: int,
    claim: Claim,
)
    requires
        0 <= first <= last < facts.len(),
        0 <= end <= facts.len(),
        forall|i: int| first <= i <= last ==> #[trigger] selects(ranges, i),
        forall|i: int|
            0 <= i < facts.len() && !(first <= i <= last) && #[trigger] selects(ranges, i)
                ==> facts[i] is Context,
    ensures
        selected_tally(scene, facts, ranges, end, claim) == facts_tally(
            scene,
            facts,
            first,
            if end <= last {
                end
            } else {
                last + 1
            },
            claim,
        ),
    decreases end,
{
    if end > 0 {
        lemma_selected_run(scene, facts, ranges, first, last, end - 1, claim);
        assert(selects(ranges, end - 1) || !selects(ranges, end - 1));
    }
}

/// Two runs claim what the joined run claims.
proof fn lemma_runs_join(
    scene: PlanScene<'_>,
    facts: Seq<LineFact>,
    start: int,
    middle: int,
    end: int,
    claim: Claim,
)
    requires
        start <= middle <= end,
    ensures
        facts_tally(scene, facts, start, end, claim) == facts_tally(
            scene,
            facts,
            start,
            middle,
            claim,
        ) + facts_tally(scene, facts, middle, end, claim),
    decreases end - middle,
{
    if middle < end {
        lemma_runs_join(scene, facts, start, middle, end - 1, claim);
    }
}

/// Unchanged rows claim nothing.
proof fn lemma_run_unchanged(
    scene: PlanScene<'_>,
    facts: Seq<LineFact>,
    start: int,
    end: int,
    claim: Claim,
)
    requires
        0 <= start <= end <= facts.len(),
        forall|k: int| start <= k < end ==> (#[trigger] facts[k]) is Context,
    ensures
        facts_tally(scene, facts, start, end, claim) == 0,
    decreases end - start,
{
    if start < end {
        lemma_run_unchanged(scene, facts, start, end - 1, claim);
        assert(facts[end - 1] is Context);
    }
}

/// The excerpts claim exactly what the facts claim.
pub open spec fn claims_drawn(
    scene: PlanScene<'_>,
    facts: Seq<LineFact>,
    excerpts: Seq<Excerpt>,
) -> bool {
    forall|claim: Claim| #[trigger]
        excerpts_tally(excerpts, claim) == facts_tally(
            scene,
            facts,
            0,
            facts.len() as int,
            claim,
        )
}

/// The rows of a fact are shown as what they are.
pub open spec fn shows_fact(
    scene: PlanScene<'_>,
    changes: Seq<SourceChange>,
    fact: LineFact,
) -> bool {
    match fact {
        LineFact::Context { before, after, strong } => changes.contains(
            SourceChange::Context((after + 1) as usize),
        ),
        LineFact::Edit { before, after } => shows_replacement(changes, before, after),
        LineFact::TerminatorEdit { before, after } => shows_replacement(
            changes,
            before_of(fact),
            after_of(fact),
        ),
        LineFact::Reflow { before, after } => forall|row: int|
            after.has(row) ==> #[trigger] shows_retained_row(scene, changes, before, after, row),
    }
}

/// Further changes hide nothing.
pub proof fn lemma_still_shown(
    scene: PlanScene<'_>,
    earlier: Seq<SourceChange>,
    later: Seq<SourceChange>,
    fact: LineFact,
)
    requires
        earlier.is_prefix_of(later),
        shows_fact(scene, earlier, fact),
    ensures
        shows_fact(scene, later, fact),
{
    assert forall|before: Span, after: Span| shows_replacement(
        earlier,
        before,
        after,
    ) implies #[trigger] shows_replacement(later, before, after) by {
        let k = choose|k: int|
            0 <= k < earlier.len() && is_replacement(#[trigger] earlier[k], before, after);
        assert(later[k] == earlier[k]);
    }
    assert forall|change: SourceChange| earlier.contains(change) implies #[trigger] later.contains(
        change,
    ) by {
        let k = choose|k: int| 0 <= k < earlier.len() && earlier[k] == change;
        assert(later[k] == earlier[k]);
    }
    match fact {
        LineFact::Reflow { before, after } => {
            assert forall|row: int| after.has(row) implies #[trigger] shows_retained_row(
                scene,
                later,
                before,
                after,
                row,
            ) by {
                assert(shows_retained_row(scene, earlier, before, after, row));
            }
        },
        _ => {},
    }
}

/// The ascending list holds the value.
pub(crate) fn holds(values: &Vec<usize>, value: usize) -> (found: bool)
    requires
        ascending(values@),
    ensures
        found == values@.contains(value),
{
    let mut low: usize = 0;
    let mut high: usize = values.len();
    while low < high
        invariant
            ascending(values@),
            low <= high <= values@.len(),
            forall|k: int| 0 <= k < low ==> (#[trigger] values@[k]) < value,
            forall|k: int| high <= k < values@.len() ==> (#[trigger] values@[k]) >= value,
        decreases high - low,
    {
        let middle = low + (high - low) / 2;
        if values[middle] < value {
            low = middle + 1;
        } else {
            high = middle;
        }
    }
    let found = low < values.len() && values[low] == value;
    proof {
        if values@.contains(value) {
            let k = choose|k: int| 0 <= k < values@.len() && values@[k] == value;
            assert(k >= low);
            if k > low {
                assert(values@[low as int] < values@[k]);
            }
        }
        if found {
            assert(values@[low as int] == value);
        }
    }
    found
}

/// The line starts a syntax node below the root.
pub open spec fn starts_scope(tree: SyntaxTree, root: int, line: usize) -> bool {
    exists|id: int|
        tree.in_subtree(root, id) && (#[trigger] tree.nodes@[id]).leaf is None
            && tree.nodes@[id].lines.start == line
}

/// Lines ascend, exist, and start syntax nodes below the root.
pub open spec fn is_hierarchy(tree: SyntaxTree, root: int, lines: Seq<usize>) -> bool {
    &&& ascending(lines)
    &&& forall|k: int|
        0 <= k < lines.len() ==> is_line(
            #[trigger] lines[k],
            tree.source.line_seq().len() as int,
        ) && starts_scope(tree, root, lines[k])
}

/// Going from parent to parent leads from the node to the ancestor.
pub open spec fn stands_above(tree: SyntaxTree, ancestor: int, node: int) -> bool
    decreases node,
{
    match tree.nodes@[node].parent {
        Some(parent) => parent < node && (parent == ancestor || stands_above(
            tree,
            ancestor,
            parent as int,
        )),
        None => false,
    }
}

proof fn lemma_above_is_earlier(tree: SyntaxTree, ancestor: int, node: int)
    requires
        stands_above(tree, ancestor, node),
    ensures
        0 <= ancestor < node,
    decreases node,
{
    let parent = tree.nodes@[node].parent->0;
    if parent != ancestor {
        lemma_above_is_earlier(tree, ancestor, parent as int);
    }
}

/// The node is no leaf, has lines, and its first one is the line.
pub open spec fn opens_at(tree: SyntaxTree, id: int, line: usize) -> bool {
    &&& tree.nodes@[id].leaf is None
    &&& tree.nodes@[id].lines.start == line
    &&& line < tree.nodes@[id].lines.end
    &&& is_line(line, tree.source.line_seq().len() as int)
}

/// A node above the leaf, at or below the root, opens at the line; the root is above the leaf.
pub open spec fn opens_around(tree: SyntaxTree, root: int, leaf: int, line: usize) -> bool {
    stands_above(tree, root, leaf) && exists|id: int|
        root <= id && #[trigger] stands_above(tree, id, leaf) && opens_at(tree, id, line)
}

/// The leaf has bytes on the line.
pub open spec fn is_on_line(tree: SyntaxTree, leaf: int, line: usize) -> bool {
    let bytes = tree.source.line_seq()[line - 1].content_bytes;
    &&& tree.has_node(leaf)
    &&& tree.nodes@[leaf].leaf is Some
    &&& is_line(line, tree.source.line_seq().len() as int)
    &&& tree.nodes@[leaf].bytes.end > bytes.start
    &&& tree.nodes@[leaf].bytes.start < bytes.end
}

/// The root opens at the line, or a node between it and a leaf on the signal's line does.
pub open spec fn leads_in(tree: SyntaxTree, root: int, signal: usize, line: usize) -> bool {
    &&& tree.nodes@[root].lines.has(signal as int)
    &&& opens_at(tree, root, line) || exists|leaf: int| #[trigger]
        is_on_line(tree, leaf, signal) && opens_around(tree, root, leaf, line)
}

/// The line leads in to one of the signals.
pub open spec fn leads_in_any(
    tree: SyntaxTree,
    root: int,
    signals: Seq<usize>,
    line: usize,
) -> bool {
    exists|k: int| 0 <= k < signals.len() && leads_in(tree, root, #[trigger] signals[k], line)
}

/// Leaves of a line are those that overlap it.
proof fn lemma_leaves_on_line(tree: SyntaxTree, signal: usize, leaves: Seq<NodeId>, leaf: int)
    requires
        tree.wf(),
        tree.leaves_in_order(),
        is_line(signal, tree.source.line_seq().len() as int),
        exists|low: int, high: int| #[trigger]
            tree.is_leaf_run(
                tree.source.line_seq()[signal - 1].content_bytes,
                low,
                high,
            ) && leaves == tree.leaf_seq().subrange(low, high),
    ensures
        0 <= leaf <= usize::MAX ==> (leaves.contains(leaf as usize) <==> is_on_line(
            tree,
            leaf,
            signal,
        )),
{
    let bytes = tree.source.line_seq()[signal - 1].content_bytes;
    let (low, high) = choose|low: int, high: int| #[trigger]
        tree.is_leaf_run(bytes, low, high) && leaves == tree.leaf_seq().subrange(low, high);
    lemma_leaf_positions(tree.nodes@, tree.nodes@.len() as int);
    if 0 <= leaf <= usize::MAX {
        if leaves.contains(leaf as usize) {
            let k = choose|k: int| 0 <= k < leaves.len() && leaves[k] == leaf as usize;
            assert(leaves[k] == tree.leaf_seq()[low + k]);
            tree.law_overlapping_leaves_form_a_run(bytes, low, high, low + k);
        }
        if is_on_line(tree, leaf, signal) {
            assert(tree.leaf_seq().contains(leaf as usize));
            let at = choose|at: int|
                0 <= at < tree.leaf_seq().len() && tree.leaf_seq()[at] == leaf as usize;
            tree.law_overlapping_leaves_form_a_run(bytes, low, high, at);
            assert(leaves[at - low] == leaf as usize);
        }
    }
}

/// Add the starts of the nodes above a leaf, if the root is one of them.
fn add_ancestor_starts(tree: &SyntaxTree, root: NodeId, leaf: NodeId, lines: &mut Vec<usize>)
    requires
        tree.wf(),
        tree.has_node(root as int),
        tree.has_node(leaf as int),
        is_hierarchy(*tree, root as int, old(lines)@),
    ensures
        is_hierarchy(*tree, root as int, final(lines)@),
        forall|line: usize| #[trigger]
            final(lines)@.contains(line) <==> old(lines)@.contains(line) || opens_around(
                *tree,
                root as int,
                leaf as int,
                line,
            ),
{
    let mut path: Vec<NodeId> = Vec::new();
    let mut current = leaf;
    proof {
        assert(crate::syntax::node_fits(
            tree.nodes@[leaf as int],
            leaf as int,
            tree.nodes@.len() as int,
            tree.source.data().len() as int,
        ));
    }
    while current > root
        invariant
            tree.wf(),
            tree.has_node(root as int),
            tree.has_node(current as int),
            forall|k: int|
                0 <= k < path@.len() ==> root <= (#[trigger] path@[k]) < tree.nodes@.len()
                    && tree.nodes@[path@[k] as int].subtree_end
                    <= tree.nodes@[current as int].subtree_end,
            is_hierarchy(*tree, root as int, lines@),
            lines@ == old(lines)@,
            forall|k: int| 0 <= k < path@.len() ==> current <= #[trigger] path@[k],
            current == leaf || path@.contains(current),
            forall|id: int| #[trigger]
                stands_above(*tree, id, leaf as int) <==> (0 <= id <= usize::MAX && path@.contains(
                    id as usize,
                )) || stands_above(*tree, id, current as int),
        decreases current,
    {
        proof {
            assert(crate::syntax::parent_holds(tree.nodes@, current as int));
        }
        match tree.nodes[current].parent {
            Some(parent) => {
                if parent < root {
                    proof {
                        if stands_above(*tree, root as int, leaf as int) {
                            lemma_above_is_earlier(*tree, root as int, parent as int);
                        }
                    }
                    return;
                }
                let ghost shorter = path@;
                path.push(parent);
                proof {
                    assert(path@[shorter.len() as int] == parent);
                    assert forall|id: usize| path@.contains(id) <==> shorter.contains(id) || id
                        == parent by {
                        if shorter.contains(id) {
                            let k = choose|k: int| 0 <= k < shorter.len() && shorter[k] == id;
                            assert(path@[k] == id);
                        }
                    }
                    assert forall|id: int| #[trigger]
                        stands_above(*tree, id, leaf as int) <==> (0 <= id <= usize::MAX
                            && path@.contains(id as usize)) || stands_above(
                            *tree,
                            id,
                            parent as int,
                        ) by {
                        assert(stands_above(*tree, id, current as int) <==> id == parent
                            || stands_above(*tree, id, parent as int));
                    }
                }
                current = parent;
            },
            None => {
                assert(!stands_above(*tree, root as int, current as int));
                return;
            },
        }
    }
    if current < root {
        proof {
            if stands_above(*tree, root as int, leaf as int) {
                lemma_above_is_earlier(*tree, root as int, leaf as int);
            }
        }
        return;
    }
    let mut index: usize = 0;
    proof {
        assert forall|line: usize| #[trigger]
            lines@.contains(line) <==> old(lines)@.contains(line) || opens_in(
                *tree,
                path@.take(0),
                line,
            ) by {}
    }
    while index < path.len()
        invariant
            tree.wf(),
            tree.has_node(root as int),
            forall|k: int|
                0 <= k < path@.len() ==> root <= (#[trigger] path@[k]) < tree.nodes@.len()
                    && tree.nodes@[path@[k] as int].subtree_end
                    <= tree.nodes@[root as int].subtree_end,
            index <= path@.len(),
            is_hierarchy(*tree, root as int, lines@),
            forall|line: usize| #[trigger]
                lines@.contains(line) <==> old(lines)@.contains(line) || opens_in(
                    *tree,
                    path@.take(index as int),
                    line,
                ),
        decreases path@.len() - index,
    {
        let ghost earlier = lines@;
        let id = path[index];
        proof {
            assert(root <= path@[index as int] < tree.nodes@.len());
            assert(crate::syntax::node_fits(
                tree.nodes@[id as int],
                id as int,
                tree.nodes@.len() as int,
                tree.source.data().len() as int,
            ));
            assert(tree.in_subtree(root as int, id as int));
        }
        add_scope_start(tree, root, id, lines);
        proof {
            let shorter = path@.take(index as int);
            let longer = path@.take(index + 1);
            assert(longer[index as int] == id);
            assert forall|line: usize| #[trigger]
                lines@.contains(line) <==> old(lines)@.contains(line) || opens_in(
                    *tree,
                    longer,
                    line,
                ) by {
                assert(earlier.contains(line) <==> old(lines)@.contains(line) || opens_in(
                    *tree,
                    shorter,
                    line,
                ));
                if opens_in(*tree, shorter, line) {
                    let k = choose|k: int|
                        0 <= k < shorter.len() && opens_at(
                            *tree,
                            (#[trigger] shorter[k]) as int,
                            line,
                        );
                    assert(longer[k] == shorter[k]);
                }
                if opens_in(*tree, longer, line) {
                    let k = choose|k: int|
                        0 <= k < longer.len() && opens_at(
                            *tree,
                            (#[trigger] longer[k]) as int,
                            line,
                        );
                    if k < index {
                        assert(longer[k] == shorter[k]);
                    }
                }
            }
        }
        index += 1;
    }
    proof {
        assert(path@.take(index as int) =~= path@);
        lemma_path_opens(*tree, root as int, leaf as int, path@, current as int);
    }
}

/// One of the nodes opens at the line.
spec fn opens_in(tree: SyntaxTree, path: Seq<NodeId>, line: usize) -> bool {
    exists|k: int| 0 <= k < path.len() && opens_at(tree, (#[trigger] path[k]) as int, line)
}

/// A path from a leaf to the root has every node between them.
proof fn lemma_path_opens(
    tree: SyntaxTree,
    root: int,
    leaf: int,
    path: Seq<NodeId>,
    current: int,
)
    requires
        current == root,
        current == leaf || path.contains(current as usize),
        0 <= root <= usize::MAX,
        forall|k: int| 0 <= k < path.len() ==> root <= #[trigger] path[k],
        forall|id: int| #[trigger]
            stands_above(tree, id, leaf) <==> (0 <= id <= usize::MAX && path.contains(id as usize))
                || stands_above(tree, id, current),
    ensures
        forall|line: usize| opens_in(tree, path, line) <==> #[trigger] opens_around(
            tree,
            root,
            leaf,
            line,
        ),
{
    assert forall|line: usize| opens_in(tree, path, line) <==> #[trigger] opens_around(
        tree,
        root,
        leaf,
        line,
    ) by {
        if opens_in(tree, path, line) {
            let k = choose|k: int|
                0 <= k < path.len() && opens_at(tree, (#[trigger] path[k]) as int, line);
            assert(path.contains(path[k]));
            assert(stands_above(tree, path[k] as int, leaf));
            lemma_above_is_earlier(tree, path[k] as int, leaf);
            assert(stands_above(tree, root, leaf));
        }
        if opens_around(tree, root, leaf, line) {
            let id = choose|id: int|
                root <= id && #[trigger] stands_above(tree, id, leaf) && opens_at(tree, id, line);
            if stands_above(tree, id, current) {
                lemma_above_is_earlier(tree, id, current);
            }
            let k = choose|k: int| 0 <= k < path.len() && path[k] == id as usize;
            assert(opens_at(tree, path[k] as int, line));
        }
    }
}

/// Add the first line of a node, if it is no leaf and has lines.
fn add_scope_start(tree: &SyntaxTree, root: NodeId, id: NodeId, lines: &mut Vec<usize>)
    requires
        tree.has_node(id as int),
        tree.in_subtree(root as int, id as int),
        is_hierarchy(*tree, root as int, old(lines)@),
    ensures
        is_hierarchy(*tree, root as int, final(lines)@),
        forall|line: usize| #[trigger]
            final(lines)@.contains(line) <==> old(lines)@.contains(line) || opens_at(
                *tree,
                id as int,
                line,
            ),
{
    let node = &tree.nodes[id];
    let line = node.lines.start;
    if node.leaf.is_none() && line < node.lines.end && tree.source.line(line).is_some() {
        let ghost earlier = lines@;
        insert_ascending(lines, line);
        proof {
            assert forall|k: int| 0 <= k < lines@.len() implies is_line(
                #[trigger] lines@[k],
                tree.source.line_seq().len() as int,
            ) && starts_scope(*tree, root as int, lines@[k]) by {
                assert(lines@.contains(lines@[k]));
                if lines@[k] == line {
                    assert(tree.nodes@[id as int].lines.start == line);
                } else {
                    assert(earlier.contains(lines@[k]));
                    let at = choose|at: int| 0 <= at < earlier.len() && earlier[at] == lines@[k];
                    assert(starts_scope(*tree, root as int, earlier[at]));
                }
            }
        }
    }
}

/// Ancestor starts form sparse, grammar-independent hierarchy breadcrumbs.
pub fn structural_context_lines(tree: &SyntaxTree, root: NodeId, signals: &Vec<usize>) -> (lines: Vec<
    usize,
>)
    requires
        tree.wf(),
        tree.has_node(root as int),
    ensures
        is_hierarchy(*tree, root as int, lines@),
        (forall|k: int|
            0 <= k < signals@.len() ==> !tree.nodes@[root as int].lines.has(
                (#[trigger] signals@[k]) as int,
            )) ==> lines@.len() == 0,
        (exists|k: int|
            0 <= k < signals@.len() && tree.nodes@[root as int].lines.has(
                (#[trigger] signals@[k]) as int,
            )) && tree.nodes@[root as int].leaf is None && is_line(
            tree.nodes@[root as int].lines.start,
            tree.source.line_seq().len() as int,
        ) ==> lines@.contains(tree.nodes@[root as int].lines.start),
        tree.leaves_in_order() ==> forall|line: usize| #[trigger]
            lines@.contains(line) <==> leads_in_any(*tree, root as int, signals@, line),
{
    let mut lines: Vec<usize> = Vec::new();
    let rows = tree.nodes[root].lines;
    let mut index: usize = 0;
    let mut inside: bool = false;
    proof {
        assert(crate::syntax::node_fits(
            tree.nodes@[root as int],
            root as int,
            tree.nodes@.len() as int,
            tree.source.data().len() as int,
        ));
    }
    while index < signals.len()
        invariant
            tree.wf(),
            tree.has_node(root as int),
            tree.in_subtree(root as int, root as int),
            rows == tree.nodes@[root as int].lines,
            index <= signals@.len(),
            is_hierarchy(*tree, root as int, lines@),
            inside == exists|k: int|
                0 <= k < index && rows.has((#[trigger] signals@[k]) as int),
            !inside ==> lines@.len() == 0,
            inside && tree.nodes@[root as int].leaf is None && is_line(
                rows.start,
                tree.source.line_seq().len() as int,
            ) ==> lines@.contains(rows.start),
            tree.leaves_in_order() ==> forall|line: usize| #[trigger]
                lines@.contains(line) <==> leads_in_any(
                    *tree,
                    root as int,
                    signals@.take(index as int),
                    line,
                ),
        decreases signals@.len() - index,
    {
        let ghost fewer = lines@;
        let ghost was_inside = inside;
        let signal = signals[index];
        if rows.contains(signal) {
            proof {
                assert(rows.has(signals@[index as int] as int));
            }
            if !inside {
                add_scope_start(tree, root, root, &mut lines);
                inside = true;
            }
            let ghost opened = lines@;
            proof {
                assert forall|line: usize| #[trigger]
                    opened.contains(line) <==> fewer.contains(line) || opens_at(
                        *tree,
                        root as int,
                        line,
                    ) by {}
            }
            if let Some(line) = tree.source.line(signal) {
                let leaves = tree.leaf_ids_in(line.content_bytes);
                let mut at: usize = 0;
                while at < leaves.len()
                    invariant
                        tree.wf(),
                        tree.has_node(root as int),
                        rows == tree.nodes@[root as int].lines,
                        at <= leaves@.len(),
                        forall|k: int|
                            0 <= k < leaves@.len() ==> tree.has_node(
                                (#[trigger] leaves@[k]) as int,
                            ),
                        is_hierarchy(*tree, root as int, lines@),
                        tree.nodes@[root as int].leaf is None && is_line(
                            rows.start,
                            tree.source.line_seq().len() as int,
                        ) ==> lines@.contains(rows.start),
                        forall|line: usize| #[trigger]
                            lines@.contains(line) <==> opened.contains(line) || opens_among(
                                *tree,
                                root as int,
                                leaves@.take(at as int),
                                line,
                            ),
                    decreases leaves@.len() - at,
                {
                    let ghost earlier = lines@;
                    let leaf = leaves[at];
                    assert(tree.has_node(leaves@[at as int] as int));
                    add_ancestor_starts(tree, root, leaf, &mut lines);
                    proof {
                        assert forall|line: usize| #[trigger]
                            lines@.contains(line) <==> opened.contains(line) || opens_among(
                                *tree,
                                root as int,
                                leaves@.take(at + 1),
                                line,
                            ) by {
                            assert(earlier.contains(line) <==> opened.contains(line)
                                || opens_among(
                                *tree,
                                root as int,
                                leaves@.take(at as int),
                                line,
                            ));
                            lemma_opens_among_next(
                                *tree,
                                root as int,
                                leaves@,
                                at as int,
                                line,
                            );
                        }
                    }
                    at += 1;
                }
                proof {
                    assert(leaves@.take(at as int) =~= leaves@);
                    if tree.leaves_in_order() {
                        lemma_leads_in_next(
                            *tree,
                            root as int,
                            signals@,
                            index as int,
                            leaves@,
                            fewer,
                            lines@,
                        );
                    }
                }
            } else {
                proof {
                    if tree.leaves_in_order() {
                        lemma_leads_in_nowhere(
                            *tree,
                            root as int,
                            signals@,
                            index as int,
                            fewer,
                            lines@,
                        );
                    }
                }
            }
        } else {
            proof {
                if tree.leaves_in_order() {
                    lemma_leads_in_nowhere(
                        *tree,
                        root as int,
                        signals@,
                        index as int,
                        fewer,
                        lines@,
                    );
                }
            }
        }
        index += 1;
    }
    assert(signals@.take(index as int) =~= signals@);
    lines
}

/// A node around one of the leaves opens at the line.
spec fn opens_among(tree: SyntaxTree, root: int, leaves: Seq<NodeId>, line: usize) -> bool {
    exists|k: int|
        0 <= k < leaves.len() && opens_around(tree, root, (#[trigger] leaves[k]) as int, line)
}

proof fn lemma_opens_among_next(
    tree: SyntaxTree,
    root: int,
    leaves: Seq<NodeId>,
    at: int,
    line: usize,
)
    requires
        0 <= at < leaves.len(),
    ensures
        opens_among(tree, root, leaves.take(at + 1), line) <==> opens_among(
            tree,
            root,
            leaves.take(at),
            line,
        ) || opens_around(tree, root, leaves[at] as int, line),
{
    let shorter = leaves.take(at);
    let longer = leaves.take(at + 1);
    assert(longer[at] == leaves[at]);
    if opens_among(tree, root, shorter, line) {
        let k = choose|k: int|
            0 <= k < shorter.len() && opens_around(
                tree,
                root,
                (#[trigger] shorter[k]) as int,
                line,
            );
        assert(longer[k] == shorter[k]);
    }
    if opens_among(tree, root, longer, line) {
        let k = choose|k: int|
            0 <= k < longer.len() && opens_around(tree, root, (#[trigger] longer[k]) as int, line);
        if k < at {
            assert(longer[k] == shorter[k]);
        }
    }
}

/// One more signal leads in from where it did, and from itself.
proof fn lemma_leads_in_step(
    tree: SyntaxTree,
    root: int,
    signals: Seq<usize>,
    index: int,
    line: usize,
)
    requires
        0 <= index < signals.len(),
    ensures
        leads_in_any(tree, root, signals.take(index + 1), line) <==> leads_in_any(
            tree,
            root,
            signals.take(index),
            line,
        ) || leads_in(tree, root, signals[index], line),
{
    let shorter = signals.take(index);
    let longer = signals.take(index + 1);
    assert(longer[index] == signals[index]);
    if leads_in_any(tree, root, shorter, line) {
        let k = choose|k: int|
            0 <= k < shorter.len() && leads_in(tree, root, #[trigger] shorter[k], line);
        assert(longer[k] == shorter[k]);
    }
    if leads_in_any(tree, root, longer, line) {
        let k = choose|k: int|
            0 <= k < longer.len() && leads_in(tree, root, #[trigger] longer[k], line);
        if k < index {
            assert(longer[k] == shorter[k]);
        }
    }
}

/// Lines around the leaves of one more signal.
proof fn lemma_leads_in_next(
    tree: SyntaxTree,
    root: int,
    signals: Seq<usize>,
    index: int,
    leaves: Seq<NodeId>,
    fewer: Seq<usize>,
    lines: Seq<usize>,
)
    requires
        tree.wf(),
        tree.leaves_in_order(),
        0 <= index < signals.len(),
        tree.nodes@[root].lines.has(signals[index] as int),
        is_line(signals[index], tree.source.line_seq().len() as int),
        exists|low: int, high: int| #[trigger]
            tree.is_leaf_run(
                tree.source.line_seq()[signals[index] - 1].content_bytes,
                low,
                high,
            ) && leaves == tree.leaf_seq().subrange(low, high),
        forall|line: usize| #[trigger]
            fewer.contains(line) <==> leads_in_any(tree, root, signals.take(index), line),
        forall|line: usize| #[trigger]
            lines.contains(line) <==> fewer.contains(line) || opens_at(tree, root, line)
                || opens_among(tree, root, leaves, line),
    ensures
        forall|line: usize| #[trigger]
            lines.contains(line) <==> leads_in_any(tree, root, signals.take(index + 1), line),
{
    let signal = signals[index];
    assert forall|line: usize| #[trigger] lines.contains(line) <==> leads_in_any(
        tree,
        root,
        signals.take(index + 1),
        line,
    ) by {
        lemma_leads_in_step(tree, root, signals, index, line);
        assert(fewer.contains(line) <==> leads_in_any(tree, root, signals.take(index), line));
        if opens_among(tree, root, leaves, line) {
            let k = choose|k: int|
                0 <= k < leaves.len() && opens_around(
                    tree,
                    root,
                    (#[trigger] leaves[k]) as int,
                    line,
                );
            assert(leaves.contains(leaves[k]));
            lemma_leaves_on_line(tree, signal, leaves, leaves[k] as int);
        }
        if leads_in(tree, root, signal, line) && !opens_at(tree, root, line) {
            let leaf = choose|leaf: int| #[trigger]
                is_on_line(tree, leaf, signal) && opens_around(tree, root, leaf, line);
            lemma_leaves_on_line(tree, signal, leaves, leaf);
            let k = choose|k: int| 0 <= k < leaves.len() && leaves[k] == leaf as usize;
            assert(opens_around(tree, root, leaves[k] as int, line));
        }
    }
}

/// A signal that is no line of the root, or none at all, leads in from nowhere new.
proof fn lemma_leads_in_nowhere(
    tree: SyntaxTree,
    root: int,
    signals: Seq<usize>,
    index: int,
    fewer: Seq<usize>,
    lines: Seq<usize>,
)
    requires
        0 <= index < signals.len(),
        forall|line: usize| #[trigger]
            fewer.contains(line) <==> leads_in_any(tree, root, signals.take(index), line),
        if tree.nodes@[root].lines.has(signals[index] as int) {
            !is_line(signals[index], tree.source.line_seq().len() as int) && forall|line: usize|
                #[trigger] lines.contains(line) <==> fewer.contains(line) || opens_at(
                    tree,
                    root,
                    line,
                )
        } else {
            lines == fewer
        },
    ensures
        forall|line: usize| #[trigger]
            lines.contains(line) <==> leads_in_any(tree, root, signals.take(index + 1), line),
{
    assert forall|line: usize| #[trigger] lines.contains(line) <==> leads_in_any(
        tree,
        root,
        signals.take(index + 1),
        line,
    ) by {
        lemma_leads_in_step(tree, root, signals, index, line);
        assert(fewer.contains(line) <==> leads_in_any(tree, root, signals.take(index), line));
    }
}

/// Append the rows of a fact and cover them.
#[verifier::rlimit(60)]
#[verifier::spinoff_prover]
fn append_fact(
    scene: &PlanScene<'_>,
    changes: &mut Vec<SourceChange>,
    coverage: &mut LineCoverage,
    fact: &LineFact,
)
    requires
        scene.wf(),
        fact_ok(*scene, *fact),
        changes_fit(old(changes)@, scene.before_count(), scene.after_count()),
        coverage_fits(*old(coverage), scene.before_count(), scene.after_count()),
    ensures
        changes_fit(final(changes)@, scene.before_count(), scene.after_count()),
        coverage_fits(*final(coverage), scene.before_count(), scene.after_count()),
        old(changes)@.is_prefix_of(final(changes)@),
        shows_fact(*scene, final(changes)@, *fact),
        forall|claim: Claim| #[trigger]
            tally(final(changes)@, claim) == tally(old(changes)@, claim) + fact_claims(
                *scene,
                *fact,
                claim,
            ),
{
    let ghost earlier = changes@;
    proof {
        scene.pair.before.source.lemma_line_count();
        scene.pair.after.source.lemma_line_count();
    }
    include_rows(&mut coverage.before, fact.before_rows());
    include_rows(&mut coverage.after, fact.after_rows());
    match *fact {
        LineFact::Context { after, .. } => {
            changes.push(SourceChange::Context(after + 1));
            proof {
                assert(changes@[changes@.len() - 1] == SourceChange::Context((after + 1) as usize));
                lemma_pushed(earlier, changes@[changes@.len() - 1]);
            }
        },
        LineFact::Edit { before, after } => {
            let change = replacement(scene, before, after);
            changes.push(change);
            proof {
                assert(is_replacement(changes@[changes@.len() - 1], before, after));
                lemma_pushed(earlier, changes@[changes@.len() - 1]);
                lemma_replacement_claims(changes@[changes@.len() - 1], before, after);
            }
        },
        LineFact::TerminatorEdit { before, after } => {
            let old_rows = Span { start: before, end: before + 1 };
            let new_rows = Span { start: after, end: after + 1 };
            let change = replacement(scene, old_rows, new_rows);
            changes.push(change);
            proof {
                assert(is_replacement(changes@[changes@.len() - 1], old_rows, new_rows));
                lemma_pushed(earlier, changes@[changes@.len() - 1]);
                lemma_replacement_claims(changes@[changes@.len() - 1], old_rows, new_rows);
            }
        },
        LineFact::Reflow { before, after } => {
            append_retained_rows(scene, changes, before, after);
        },
    }
}

/// One more change, for every claim.
proof fn lemma_pushed(earlier: Seq<SourceChange>, change: SourceChange)
    ensures
        forall|claim: Claim| #[trigger]
            tally(earlier.push(change), claim) == tally(earlier, claim) + claims_in(change, claim),
{
    assert forall|claim: Claim| #[trigger]
        tally(earlier.push(change), claim) == tally(earlier, claim) + claims_in(change, claim) by {
        lemma_tally_push(earlier, change, claim);
    }
}

/// A replacement removes and adds each of its rows once.
proof fn lemma_replacement_claims(change: SourceChange, before: Span, after: Span)
    requires
        is_replacement(change, before, after),
        before.start <= before.end,
        after.start <= after.end,
    ensures
        forall|line: usize| #[trigger]
            claims_in(change, Claim::Removed(line)) == if before.has(line - 1) {
                1nat
            } else {
                0nat
            },
        forall|line: usize| #[trigger]
            claims_in(change, Claim::Added(line)) == if after.has(line - 1) {
                1nat
            } else {
                0nat
            },
{
    if let SourceChange::Replace { before: removed, after: added, line_endings } = change {
        assert forall|line: usize| #[trigger]
            claims_in(change, Claim::Removed(line)) == if before.has(line - 1) {
                1nat
            } else {
                0nat
            } by {
            lemma_numbered_range(removed@, before, line);
        }
        assert forall|line: usize| #[trigger]
            claims_in(change, Claim::Added(line)) == if after.has(line - 1) {
                1nat
            } else {
                0nat
            } by {
            lemma_numbered_range(added@, after, line);
        }
    }
}

/// How often the first rows of retained structure make the claim.
spec fn rows_claim(scene: PlanScene<'_>, before: Span, after: Span, end: int, claim: Claim) -> nat {
    match claim {
        Claim::Reflowed(line) => if after.start <= line - 1 < end && !row_matched(
            scene,
            before,
            after,
            line - 1,
        ) {
            1
        } else {
            0
        },
        _ => 0,
    }
}

/// Append the current rows of retained structure: unchanged ones as context, others as reflow.
#[verifier::rlimit(60)]
#[verifier::spinoff_prover]
fn append_retained_rows(scene: &PlanScene<'_>, changes: &mut Vec<SourceChange>, before: Span, after: Span)
    requires
        scene.wf(),
        after.start <= after.end <= scene.after_count(),
        changes_fit(old(changes)@, scene.before_count(), scene.after_count()),
    ensures
        changes_fit(final(changes)@, scene.before_count(), scene.after_count()),
        old(changes)@.is_prefix_of(final(changes)@),
        forall|row: int|
            after.has(row) ==> #[trigger] shows_retained_row(*scene, final(changes)@, before, after, row),
        forall|claim: Claim| #[trigger]
            tally(final(changes)@, claim) == tally(old(changes)@, claim) + rows_claim(
                *scene,
                before,
                after,
                after.end as int,
                claim,
            ),
{
    let links = scene.graph.source.line_links_in(before, after);
    let ghost lines = scene.graph.source.lines@;
    proof {
        scene.pair.after.source.lemma_line_count();
        crate::plan::facts::lemma_selected(lines, before, after);
    }
    let mut row = after.start;
    let mut at: usize = 0;
    while row < after.end
        invariant
            scene.wf(),
            after.start <= row <= after.end <= scene.after_count() < usize::MAX,
            at <= links@.len(),
            lines == scene.graph.source.lines@,
            links@ == links_in(lines, before, after),
            rows_ascend(links@),
            forall|k: int|
                0 <= k < links@.len() ==> lines.contains(#[trigger] links@[k]) && link_in(
                    links@[k],
                    before,
                    after,
                ),
            forall|k: int| 0 <= k < at ==> (#[trigger] links@[k]).after < row,
            changes_fit(changes@, scene.before_count(), scene.after_count()),
            old(changes)@.is_prefix_of(changes@),
            forall|other: int|
                after.start <= other < row ==> #[trigger] shows_retained_row(
                    *scene,
                    changes@,
                    before,
                    after,
                    other,
                ),
            forall|claim: Claim| #[trigger]
                tally(changes@, claim) == tally(old(changes)@, claim) + rows_claim(
                    *scene,
                    before,
                    after,
                    row as int,
                    claim,
                ),
        decreases after.end - row,
    {
        let ghost earlier = changes@;
        while at < links.len() && links[at].after < row
            invariant
                at <= links@.len(),
                forall|k: int| 0 <= k < at ==> (#[trigger] links@[k]).after < row,
            decreases links@.len() - at,
        {
            at += 1;
        }
        let matched = at < links.len() && links[at].after == row;
        proof {
            if matched {
                assert(lines.contains(links@[at as int]));
                let k = choose|k: int| 0 <= k < lines.len() && lines[k] == links@[at as int];
                assert(link_in(lines[k], before, after));
            }
            if row_matched(*scene, before, after, row as int) {
                let k = choose|k: int|
                    0 <= k < lines.len() && link_in(#[trigger] lines[k], before, after)
                        && lines[k].after == row;
                lines.lemma_filter_contains(|link: LineLink| link_in(link, before, after), k);
                assert(links@.contains(lines[k]));
                let x = choose|x: int| 0 <= x < links@.len() && links@[x] == lines[k];
                if x > at {
                    assert(links@[at as int].after < links@[x].after);
                }
                assert(matched);
            }
            assert(matched == row_matched(*scene, before, after, row as int));
        }
        if matched {
            changes.push(SourceChange::Context(row + 1));
        } else {
            changes.push(SourceChange::Reflow(row + 1));
        }
        proof {
            let added = changes@[changes@.len() - 1];
            assert(changes@.contains(added));
            assert(added == row_change(*scene, before, after, row as int));
            assert(changes@ =~= earlier.push(added));
            lemma_pushed(earlier, added);
            assert forall|other: int| after.start <= other < row + 1 implies #[trigger] shows_retained_row(
                *scene,
                changes@,
                before,
                after,
                other,
            ) by {
                if other < row {
                    let shown = row_change(*scene, before, after, other);
                    assert(shows_retained_row(*scene, earlier, before, after, other));
                    let k = choose|k: int| 0 <= k < earlier.len() && earlier[k] == shown;
                    assert(changes@[k] == shown);
                }
            }
            assert forall|claim: Claim| #[trigger]
                tally(changes@, claim) == tally(old(changes)@, claim) + rows_claim(
                    *scene,
                    before,
                    after,
                    row + 1,
                    claim,
                ) by {
                assert(tally(earlier.push(added), claim) == tally(earlier, claim) + claims_in(
                    added,
                    claim,
                ));
            }
        }
        row += 1;
    }
}

/// Whether all rows of a fact come before a current row.
fn ends_by(fact: &LineFact, row: usize) -> (result: bool)
    ensures
        result == match *fact {
            LineFact::Context { before, after, strong } => after < row,
            LineFact::TerminatorEdit { before, after } => after < row,
            LineFact::Edit { before, after } => after.end <= row,
            LineFact::Reflow { before, after } => after.end <= row,
        },
{
    match *fact {
        LineFact::Context { after, .. } => after < row,
        LineFact::TerminatorEdit { after, .. } => after < row,
        LineFact::Edit { after, .. } => after.end <= row,
        LineFact::Reflow { after, .. } => after.end <= row,
    }
}

/// The fact is a signal, and one of its current rows, or the place of one of its old rows, is at
/// the line.
pub open spec fn stands_on(scene: PlanScene<'_>, fact: LineFact, line: usize) -> bool {
    !(fact is Context) && (after_of(fact).has(line - 1) || exists|before_line: usize| #[trigger]
        alignment_of(*scene.pair, *scene.graph).is_anchor_line(before_line, line) && before_of(
            fact,
        ).has(before_line - 1))
}

/// One of the lines is a place of the old line.
pub open spec fn has_place(scene: PlanScene<'_>, lines: Seq<usize>, before_line: usize) -> bool {
    exists|anchor: usize| #[trigger]
        alignment_of(*scene.pair, *scene.graph).is_anchor_line(before_line, anchor)
            && lines.contains(anchor)
}

/// The list holds every current row of the fact up to a row, and a place of every old one.
pub open spec fn lists_rows(
    scene: PlanScene<'_>,
    lines: Seq<usize>,
    fact: LineFact,
    before_end: int,
    after_end: int,
) -> bool {
    &&& forall|line: usize|
        after_of(fact).has(line - 1) && line <= after_end ==> #[trigger] lines.contains(line)
    &&& forall|before_line: usize|
        scene.after_count() > 0 && before_of(fact).has(before_line - 1) && before_line <= before_end
            ==> #[trigger] has_place(scene, lines, before_line)
}

/// More lines list the rows still.
proof fn lemma_lists_more(
    scene: PlanScene<'_>,
    fewer: Seq<usize>,
    lines: Seq<usize>,
    fact: LineFact,
    before_end: int,
    after_end: int,
)
    requires
        lists_rows(scene, fewer, fact, before_end, after_end),
        forall|line: usize| fewer.contains(line) ==> #[trigger] lines.contains(line),
    ensures
        lists_rows(scene, lines, fact, before_end, after_end),
{
    assert forall|before_line: usize|
        scene.after_count() > 0 && before_of(fact).has(before_line - 1) && before_line
            <= before_end implies #[trigger] has_place(scene, lines, before_line) by {
        assert(has_place(scene, fewer, before_line));
    }
    assert forall|line: usize| after_of(fact).has(line - 1) && line <= after_end implies
        #[trigger] lines.contains(line) by {
        assert(fewer.contains(line));
    }
}

/// The unchanged fact of a current line, if it has one.
fn context_fact_for_after_line(facts: &Vec<LineFact>, line: usize) -> (index: Option<usize>)
    ensures
        index matches Some(index) ==> index < facts@.len() && (
        facts@[index as int] matches LineFact::Context { before, after, strong } && after + 1
            == line),
{
    if line == 0 {
        return None;
    }
    let row = line - 1;
    let mut low: usize = 0;
    let mut high: usize = facts.len();
    while low < high
        invariant
            low <= high <= facts@.len(),
        decreases high - low,
    {
        let middle = low + (high - low) / 2;
        if ends_by(&facts[middle], row) {
            low = middle + 1;
        } else {
            high = middle;
        }
    }
    if low < facts.len() {
        if let LineFact::Context { after, .. } = facts[low] {
            if after == row {
                return Some(low);
            }
        }
    }
    None
}

/// Lines at which the signals stand in the current file.
fn fact_signal_lines(scene: &PlanScene<'_>, facts: &Vec<LineFact>, first: usize, last: usize) -> (lines:
    Vec<usize>)
    requires
        scene.wf(),
        facts_ok(*scene, facts@),
        first <= last < facts@.len(),
    ensures
        ascending(lines@),
        forall|line: usize| #[trigger]
            lines@.contains(line) ==> exists|k: int|
                first <= k <= last && stands_on(*scene, #[trigger] facts@[k], line),
        forall|k: int|
            first <= k <= last && !((#[trigger] facts@[k]) is Context) ==> lists_rows(
                *scene,
                lines@,
                facts@[k],
                before_of(facts@[k]).end as int,
                after_of(facts@[k]).end as int,
            ),
{
    proof {
        scene.pair.before.source.lemma_line_count();
        scene.pair.after.source.lemma_line_count();
    }
    let alignment = scene.alignment();
    let mut lines: Vec<usize> = Vec::new();
    let mut index = first;
    while index <= last
        invariant
            scene.wf(),
            alignment.wf(),
            scene.before_count() < usize::MAX,
            scene.after_count() < usize::MAX,
            facts_ok(*scene, facts@),
            first <= index <= last + 1,
            last < facts@.len(),
            ascending(lines@),
            alignment == alignment_of(*scene.pair, *scene.graph),
            forall|line: usize| #[trigger]
                lines@.contains(line) ==> exists|k: int|
                    first <= k <= last && stands_on(*scene, #[trigger] facts@[k], line),
            forall|k: int|
                first <= k < index && !((#[trigger] facts@[k]) is Context) ==> lists_rows(
                    *scene,
                    lines@,
                    facts@[k],
                    before_of(facts@[k]).end as int,
                    after_of(facts@[k]).end as int,
                ),
        decreases last + 1 - index,
    {
        let ghost known = lines@;
        let fact = facts[index];
        proof {
            assert(fact_ok(*scene, facts@[index as int]));
            assert(last < facts.len());
        }
        if fact.is_signal() {
            let after = fact.after_rows();
            let mut row = after.start;
            while row < after.end
                invariant
                    row <= after.end < usize::MAX || row == after.start,
                    after.end < usize::MAX,
                    after.start <= row,
                    ascending(lines@),
                    first <= index <= last,
                    fact == facts@[index as int],
                    !(fact is Context),
                    after == after_of(fact),
                    forall|line: usize| known.contains(line) ==> #[trigger] lines@.contains(line),
                    forall|line: usize| #[trigger]
                        lines@.contains(line) ==> exists|k: int|
                            first <= k <= last && stands_on(*scene, #[trigger] facts@[k], line),
                    forall|line: usize|
                        after.start < line <= row ==> #[trigger] lines@.contains(line),
                decreases after.end - row,
            {
                insert_ascending(&mut lines, row + 1);
                assert(stands_on(*scene, facts@[index as int], (row + 1) as usize));
                row += 1;
            }
            let before = fact.before_rows();
            let mut row = before.start;
            while row < before.end
                invariant
                    alignment.wf(),
                    row <= before.end < usize::MAX || row == before.start,
                    before.end < usize::MAX,
                    before.start <= row,
                    ascending(lines@),
                    alignment == alignment_of(*scene.pair, *scene.graph),
                    alignment.after_lines == scene.after_count(),
                    first <= index <= last,
                    fact == facts@[index as int],
                    !(fact is Context),
                    before == before_of(fact),
                    forall|line: usize| known.contains(line) ==> #[trigger] lines@.contains(line),
                    forall|line: usize| #[trigger]
                        lines@.contains(line) ==> exists|k: int|
                            first <= k <= last && stands_on(*scene, #[trigger] facts@[k], line),
                    forall|line: usize|
                        after_of(fact).has(line - 1) ==> #[trigger] lines@.contains(line),
                    forall|before_line: usize|
                        scene.after_count() > 0 && before.start < before_line <= row
                            ==> #[trigger] has_place(*scene, lines@, before_line),
                decreases before.end - row,
            {
                let ghost fewer = lines@;
                if let Some(line) = alignment.current_anchor(row + 1) {
                    insert_ascending(&mut lines, line);
                    proof {
                        let before_line = (row + 1) as usize;
                        assert(alignment_of(*scene.pair, *scene.graph).is_anchor_line(
                            before_line,
                            line,
                        ));
                        assert(before_of(fact).has(before_line - 1));
                        assert(stands_on(*scene, facts@[index as int], line));
                        assert(has_place(*scene, lines@, before_line));
                    }
                }
                proof {
                    assert forall|before_line: usize|
                        scene.after_count() > 0 && before.start < before_line <= row
                            + 1 implies #[trigger] has_place(*scene, lines@, before_line) by {
                        if before_line <= row {
                            assert(has_place(*scene, fewer, before_line));
                        }
                    }
                }
                row += 1;
            }
        }
        proof {
            assert forall|k: int|
                first <= k < index + 1 && !((#[trigger] facts@[k]) is Context) implies lists_rows(
                *scene,
                lines@,
                facts@[k],
                before_of(facts@[k]).end as int,
                after_of(facts@[k]).end as int,
            ) by {
                if k < index {
                    lemma_lists_more(
                        *scene,
                        known,
                        lines@,
                        facts@[k],
                        before_of(facts@[k]).end as int,
                        after_of(facts@[k]).end as int,
                    );
                }
            }
        }
        index += 1;
    }
    lines
}

/// Rows omitted between two shown runs of facts.
fn omitted_coverage(scene: &PlanScene<'_>, facts: &Vec<LineFact>, start: usize, end: usize) -> (coverage:
    LineCoverage)
    requires
        scene.wf(),
        facts_ok(*scene, facts@),
        start < end <= facts@.len(),
    ensures
        change_fits(
            SourceChange::Elision(coverage),
            scene.before_count(),
            scene.after_count(),
        ),
{
    proof {
        scene.pair.before.source.lemma_line_count();
        scene.pair.after.source.lemma_line_count();
    }
    let mut coverage = LineCoverage::nothing();
    let mut index = start;
    while index < end
        invariant
            scene.wf(),
            scene.before_count() < usize::MAX - 1,
            scene.after_count() < usize::MAX - 1,
            facts_ok(*scene, facts@),
            start <= index <= end <= facts@.len(),
            coverage_fits(coverage, scene.before_count(), scene.after_count()),
            index > start ==> coverage.before is Some || coverage.after is Some,
        decreases end - index,
    {
        let fact = facts[index];
        assert(fact_ok(*scene, facts@[index as int]));
        include_rows(&mut coverage.before, fact.before_rows());
        include_rows(&mut coverage.after, fact.after_rows());
        index += 1;
    }
    coverage
}

/// Current lines that changes display, ascending.
pub open spec fn displays(changes: Seq<SourceChange>, line: usize) -> bool {
    exists|k: int| 0 <= k < changes.len() && displayed_by(#[trigger] changes[k], line)
}

/// The change displays the current line.
pub open spec fn displayed_by(change: SourceChange, line: usize) -> bool {
    match change {
        SourceChange::Context(number) => number == line,
        SourceChange::Edited(edit) => edit.number == line,
        SourceChange::Reflow(number) => number == line,
        SourceChange::Replace { before, after, line_endings } => names_line(after@, line),
        SourceChange::LineEnding(ending) => false,
        SourceChange::Move(block) => block.after.has(line as int),
        SourceChange::Compact(compact) => compact.after_line == Some(line),
        SourceChange::Elision(coverage) => false,
    }
}

/// Some edit names the line.
pub open spec fn names_line(edits: Seq<crate::review::SourceEdit>, line: usize) -> bool {
    exists|k: int| 0 <= k < edits.len() && (#[trigger] edits[k]).number == line
}

/// Add the current lines that a change displays.
pub fn add_displayed(lines: &mut Vec<usize>, change: &SourceChange)
    requires
        ascending(old(lines)@),
    ensures
        ascending(final(lines)@),
        forall|line: usize| #[trigger]
            final(lines)@.contains(line) <==> old(lines)@.contains(line) || displayed_by(
                *change,
                line,
            ),
{
    match change {
        SourceChange::Context(number) => {
            insert_ascending(lines, *number);
        },
        SourceChange::Edited(edit) => {
            insert_ascending(lines, edit.number);
        },
        SourceChange::Reflow(number) => {
            insert_ascending(lines, *number);
        },
        SourceChange::Replace { before: _, after, line_endings: _ } => {
            let mut index: usize = 0;
            while index < after.len()
                invariant
                    ascending(lines@),
                    index <= after@.len(),
                    forall|line: usize|
                        lines@.contains(line) <==> old(lines)@.contains(line) || names_line(
                            after@.take(index as int),
                            line,
                        ),
                decreases after@.len() - index,
            {
                let number = after[index].number;
                let ghost earlier = lines@;
                insert_ascending(lines, number);
                proof {
                    assert forall|line: usize|
                        names_line(after@.take(index + 1), line) <==> names_line(
                            after@.take(index as int),
                            line,
                        ) || line == number by {
                        let shorter = after@.take(index as int);
                        let longer = after@.take(index + 1);
                        if names_line(longer, line) {
                            let k = choose|k: int|
                                0 <= k < longer.len() && (#[trigger] longer[k]).number == line;
                            if k < index {
                                assert(shorter[k].number == line);
                            }
                        }
                        if names_line(shorter, line) {
                            let k = choose|k: int|
                                0 <= k < shorter.len() && (#[trigger] shorter[k]).number == line;
                            assert(longer[k].number == line);
                        }
                        assert(longer[index as int].number == number);
                    }
                }
                index += 1;
            }
            assert(after@.take(index as int) =~= after@);
        },
        SourceChange::LineEnding(_) => {},
        SourceChange::Move(block) => {
            let mut line = block.after.start;
            while line < block.after.end
                invariant
                    ascending(lines@),
                    block.after.start <= line,
                    line <= block.after.end || line == block.after.start,
                    forall|other: usize|
                        lines@.contains(other) <==> old(lines)@.contains(other) || (
                        block.after.start <= other < line),
                decreases block.after.end - line,
            {
                insert_ascending(lines, line);
                line += 1;
            }
        },
        SourceChange::Compact(compact) => {
            if let Some(line) = compact.after_line {
                insert_ascending(lines, line);
            }
        },
        SourceChange::Elision(_) => {},
    }
}

/// Current lines that the changes display.
pub fn displayed_lines(changes: &Vec<SourceChange>) -> (lines: Vec<usize>)
    ensures
        ascending(lines@),
        forall|line: usize| lines@.contains(line) <==> displays(changes@, line),
{
    let mut lines: Vec<usize> = Vec::new();
    let mut index: usize = 0;
    while index < changes.len()
        invariant
            ascending(lines@),
            index <= changes@.len(),
            forall|line: usize|
                lines@.contains(line) <==> displays(changes@.take(index as int), line),
        decreases changes@.len() - index,
    {
        let ghost earlier = lines@;
        let change = &changes[index];
        add_displayed(&mut lines, change);
        proof {
            let shorter = changes@.take(index as int);
            let longer = changes@.take(index + 1);
            assert forall|line: usize| lines@.contains(line) <==> displays(longer, line) by {
                assert(earlier.contains(line) <==> displays(shorter, line));
                assert(lines@.contains(line) <==> earlier.contains(line) || displayed_by(
                    changes@[index as int],
                    line,
                ));
                if displays(longer, line) {
                    let k = choose|k: int|
                        0 <= k < longer.len() && displayed_by(#[trigger] longer[k], line);
                    if k < index {
                        assert(displayed_by(shorter[k], line));
                    }
                }
                if displays(shorter, line) {
                    let k = choose|k: int|
                        0 <= k < shorter.len() && displayed_by(#[trigger] shorter[k], line);
                    assert(displayed_by(longer[k], line));
                }
                assert(longer[index as int] == changes@[index as int]);
            }
        }
        index += 1;
    }
    assert(changes@.take(index as int) =~= changes@);
    lines
}

/// Show hierarchy lines that nothing displays yet.
pub(crate) fn append_hierarchy(
    scene: &PlanScene<'_>,
    changes: &mut Vec<SourceChange>,
    coverage: &mut LineCoverage,
    hierarchy: &Vec<usize>,
)
    requires
        scene.wf(),
        forall|k: int|
            0 <= k < hierarchy@.len() ==> is_line(#[trigger] hierarchy@[k], scene.after_count()),
        changes_fit(old(changes)@, scene.before_count(), scene.after_count()),
        coverage_fits(*old(coverage), scene.before_count(), scene.after_count()),
    ensures
        changes_fit(final(changes)@, scene.before_count(), scene.after_count()),
        coverage_fits(*final(coverage), scene.before_count(), scene.after_count()),
        old(changes)@.is_prefix_of(final(changes)@),
        forall|k: int|
            old(changes)@.len() <= k < final(changes)@.len() ==> (
            #[trigger] final(changes)@[k]) is Context,
        forall|k: int|
            old(changes)@.len() <= k < final(changes)@.len() ==> ((
            #[trigger] final(changes)@[k]) matches SourceChange::Context(line)
                && hierarchy@.contains(line) && !displays(old(changes)@, line)),
        forall|k: int|
            0 <= k < hierarchy@.len() ==> displays(final(changes)@, #[trigger] hierarchy@[k]),
{
    proof {
        scene.pair.after.source.lemma_line_count();
    }
    let shown = displayed_lines(changes);
    let mut index: usize = 0;
    while index < hierarchy.len()
        invariant
            scene.after_count() < usize::MAX,
            ascending(shown@),
            index <= hierarchy@.len(),
            forall|k: int|
                0 <= k < hierarchy@.len() ==> is_line(
                    #[trigger] hierarchy@[k],
                    scene.after_count(),
                ),
            changes_fit(changes@, scene.before_count(), scene.after_count()),
            coverage_fits(*coverage, scene.before_count(), scene.after_count()),
            old(changes)@.is_prefix_of(changes@),
            forall|k: int|
                old(changes)@.len() <= k < changes@.len() ==> (#[trigger] changes@[k]) is Context,
            forall|line: usize| shown@.contains(line) <==> displays(old(changes)@, line),
            forall|k: int|
                old(changes)@.len() <= k < changes@.len() ==> ((
                #[trigger] changes@[k]) matches SourceChange::Context(line) && hierarchy@.contains(
                    line,
                ) && !displays(old(changes)@, line)),
            forall|k: int| 0 <= k < index ==> displays(changes@, #[trigger] hierarchy@[k]),
        decreases hierarchy@.len() - index,
    {
        let ghost earlier = changes@;
        let line = hierarchy[index];
        assert(is_line(hierarchy@[index as int], scene.after_count()));
        if !holds(&shown, line) {
            changes.push(SourceChange::Context(line));
            include_line(&mut coverage.after, line);
            assert(displayed_by(changes@[earlier.len() as int], line));
        }
        proof {
            assert(hierarchy@[index as int] == line);
            if displays(old(changes)@, line) {
                lemma_still_displayed(old(changes)@, changes@, line);
            }
            assert forall|k: int| 0 <= k < index + 1 implies displays(
                changes@,
                #[trigger] hierarchy@[k],
            ) by {
                if k < index {
                    lemma_still_displayed(earlier, changes@, hierarchy@[k]);
                }
            }
        }
        index += 1;
    }
}

/// Further changes display what was displayed.
pub proof fn lemma_still_displayed(earlier: Seq<SourceChange>, later: Seq<SourceChange>, line: usize)
    requires
        earlier.is_prefix_of(later),
        displays(earlier, line),
    ensures
        displays(later, line),
{
    let k = choose|k: int| 0 <= k < earlier.len() && displayed_by(#[trigger] earlier[k], line);
    assert(later[k] == earlier[k]);
}

/// Every line that leads in to the signal is displayed.
pub open spec fn shows_scopes(
    scene: PlanScene<'_>,
    root: int,
    changes: Seq<SourceChange>,
    signal: usize,
) -> bool {
    forall|line: usize| #[trigger]
        leads_in(scene.pair.after, root, signal, line) ==> displays(changes, line)
}

/// Every line that leads in to the place of an old line is displayed.
pub open spec fn shows_scopes_of_old(
    scene: PlanScene<'_>,
    root: int,
    changes: Seq<SourceChange>,
    before_line: usize,
) -> bool {
    exists|anchor: usize| #[trigger]
        alignment_of(*scene.pair, *scene.graph).is_anchor_line(before_line, anchor)
            && shows_scopes(scene, root, changes, anchor)
}

/// Hierarchy of a list of signals is displayed.
pub proof fn lemma_shows_scopes(
    scene: PlanScene<'_>,
    root: int,
    changes: Seq<SourceChange>,
    signals: Seq<usize>,
    hierarchy: Seq<usize>,
    signal: usize,
)
    requires
        signals.contains(signal),
        forall|line: usize| #[trigger]
            hierarchy.contains(line) <==> leads_in_any(scene.pair.after, root, signals, line),
        forall|k: int| 0 <= k < hierarchy.len() ==> displays(changes, #[trigger] hierarchy[k]),
    ensures
        shows_scopes(scene, root, changes, signal),
{
    let at = choose|at: int| 0 <= at < signals.len() && signals[at] == signal;
    assert forall|line: usize| #[trigger]
        leads_in(scene.pair.after, root, signal, line) implies displays(changes, line) by {
        assert(leads_in(scene.pair.after, root, signals[at], line));
        assert(leads_in_any(scene.pair.after, root, signals, line));
        assert(hierarchy.contains(line));
        let k = choose|k: int| 0 <= k < hierarchy.len() && hierarchy[k] == line;
        assert(displays(changes, hierarchy[k]));
    }
}

/// Every fact from one to the other, but for the run itself, is unchanged.
pub open spec fn is_quiet_to(facts: Seq<LineFact>, run: Span, at: int) -> bool {
    forall|i: int|
        at <= i < run.start || run.end <= i <= at ==> (#[trigger] facts[i]) is Context
}

/// The excerpt shows the run, up to three unchanged rows on either side of it, and the starts of
/// the syntax around its signals.
pub open spec fn explains_facts(
    scene: PlanScene<'_>,
    facts: Seq<LineFact>,
    run: Span,
    after_root: Option<NodeId>,
    changes: Seq<SourceChange>,
) -> bool {
    &&& forall|at: int|
        0 <= at < facts.len() && run.start - 3 <= at < run.end + 3 && is_quiet_to(facts, run, at)
            ==> shows_fact(scene, changes, #[trigger] facts[at])
    &&& after_root matches Some(root) ==> (scene.pair.after.leaves_in_order() ==> explains_scopes(
        scene,
        facts,
        run,
        root,
        changes,
    ))
}

/// The starts of the syntax around the signals of the run are displayed.
pub open spec fn explains_scopes(
    scene: PlanScene<'_>,
    facts: Seq<LineFact>,
    run: Span,
    root: NodeId,
    changes: Seq<SourceChange>,
) -> bool {
    &&& forall|at: int, signal: usize|
        run.has(at) && !((#[trigger] facts[at]) is Context) && after_of(facts[at]).has(signal - 1)
            ==> #[trigger] shows_scopes(scene, root as int, changes, signal)
    &&& forall|at: int, before_line: usize|
        run.has(at) && !((#[trigger] facts[at]) is Context) && before_of(facts[at]).has(
            before_line - 1,
        ) && scene.after_count() > 0 ==> #[trigger] shows_scopes_of_old(
            scene,
            root as int,
            changes,
            before_line,
        )
}

/// Hierarchy of the signals of a run.
proof fn lemma_explains_scopes(
    scene: PlanScene<'_>,
    facts: Seq<LineFact>,
    run: Span,
    root: NodeId,
    changes: Seq<SourceChange>,
    signals: Seq<usize>,
    hierarchy: Seq<usize>,
)
    requires
        forall|k: int|
            run.has(k) && !((#[trigger] facts[k]) is Context) ==> lists_rows(
                scene,
                signals,
                facts[k],
                before_of(facts[k]).end as int,
                after_of(facts[k]).end as int,
            ),
        forall|line: usize| #[trigger]
            hierarchy.contains(line) <==> leads_in_any(
                scene.pair.after,
                root as int,
                signals,
                line,
            ),
        forall|k: int| 0 <= k < hierarchy.len() ==> displays(changes, #[trigger] hierarchy[k]),
    ensures
        explains_scopes(scene, facts, run, root, changes),
{
    assert forall|at: int, signal: usize|
        run.has(at) && !((#[trigger] facts[at]) is Context) && after_of(facts[at]).has(
            signal - 1,
        ) implies #[trigger] shows_scopes(scene, root as int, changes, signal) by {
        assert(signals.contains(signal));
        lemma_shows_scopes(scene, root as int, changes, signals, hierarchy, signal);
    }
    assert forall|at: int, before_line: usize|
        run.has(at) && !((#[trigger] facts[at]) is Context) && before_of(facts[at]).has(
            before_line - 1,
        ) && scene.after_count() > 0 implies #[trigger] shows_scopes_of_old(
        scene,
        root as int,
        changes,
        before_line,
    ) by {
        assert(has_place(scene, signals, before_line));
        let anchor = choose|anchor: usize| #[trigger]
            alignment_of(*scene.pair, *scene.graph).is_anchor_line(before_line, anchor)
                && signals.contains(anchor);
        lemma_shows_scopes(scene, root as int, changes, signals, hierarchy, anchor);
    }
}

/// The fact joins unchanged rows.
pub open spec fn unchanged(fact: LineFact) -> bool {
    fact is Context
}

/// Facts of the signals from `first` to `last`, with their halo and their hierarchy.
#[verifier::rlimit(60)]
#[verifier::spinoff_prover]
fn plan_line_excerpt(
    scene: &PlanScene<'_>,
    facts: &Vec<LineFact>,
    first: usize,
    last: usize,
    after_root: Option<NodeId>,
) -> (excerpt: Excerpt)
    requires
        scene.wf(),
        facts_ok(*scene, facts@),
        first <= last < facts@.len(),
        after_root matches Some(root) ==> scene.pair.after.has_node(root as int),
    ensures
        excerpt.fits(*scene),
        forall|k: int|
            first <= k <= last ==> shows_fact(*scene, excerpt.changes@, #[trigger] facts@[k]),
        explains_facts(
            *scene,
            facts@,
            Span { start: first, end: (last + 1) as usize },
            after_root,
            excerpt.changes@,
        ),
        forall|claim: Claim| #[trigger]
            tally(excerpt.changes@, claim) == facts_tally(
                *scene,
                facts@,
                first as int,
                last + 1,
                claim,
            ),
{
    assert(last < facts.len());
    let is_unchanged = |fact: &LineFact| -> (result: bool)
        ensures
            result == unchanged(*fact),
        { !fact.is_signal() };
    let halo = context_halo_range(
        facts.as_slice(),
        Span { start: first, end: last + 1 },
        is_unchanged,
    );
    let signals = fact_signal_lines(scene, facts, first, last);
    let hierarchy = match after_root {
        Some(root) => structural_context_lines(&scene.pair.after, root, &signals),
        None => Vec::new(),
    };
    let context_index = |line: usize| -> (index: Option<usize>)
        ensures
            index matches Some(index) ==> index < facts@.len() && facts@[index as int] is Context,
        { context_fact_for_after_line(facts, line) };
    let breadcrumbs = breadcrumb_halo_indices(&hierarchy, context_index);
    proof {
        assert forall|k: int| 0 <= k < breadcrumbs@.len() implies (#[trigger] breadcrumbs@[k])
            < facts@.len() && facts@[breadcrumbs@[k] as int] is Context by {
            assert(is_row(context_index, breadcrumbs@[k]));
        }
        assert(facts.len() <= usize::MAX);
    }
    let is_context = |index: usize| -> (result: bool)
        ensures
            result ==> index < facts@.len() && facts@[index as int] is Context,
        { index < facts.len() && !facts[index].is_signal() };
    let ranges = review_selection_ranges(halo, &breadcrumbs, is_context);
    proof {
        assert forall|k: int| 0 <= k < ranges@.len() implies (#[trigger] ranges@[k]).start
            < ranges@[k].end <= facts@.len() by {
            let final_index = ranges@[k].end - 1;
            assert(ranges@[k].has(final_index));
            assert(selects(ranges@, final_index));
            if breadcrumbs@.contains(final_index as usize) {
                let at = choose|at: int|
                    0 <= at < breadcrumbs@.len() && breadcrumbs@[at] == final_index as usize;
                assert(breadcrumbs@[at] < facts@.len());
            }
        }
    }
    proof {
        assert forall|i: int|
            0 <= i < facts@.len() && !(first <= i <= last) && #[trigger] selects(
                ranges@,
                i,
            ) implies facts@[i] is Context by {
            if halo.has(i) {
                assert(unchanged(facts@[i]));
            } else if breadcrumbs@.contains(i as usize) {
                let at = choose|at: int| 0 <= at < breadcrumbs@.len() && breadcrumbs@[at] == i as usize;
                assert(facts@[breadcrumbs@[at] as int] is Context);
            }
        }
        assert forall|i: int| first <= i <= last implies #[trigger] selects(ranges@, i) by {
            assert(halo.has(i));
        }
    }
    let mut coverage = LineCoverage::nothing();
    let mut changes: Vec<SourceChange> = Vec::new();
    let ghost blank = changes@;
    append_selected(scene, facts, &ranges, &mut changes, &mut coverage);
    let ghost selected = changes@;
    append_hierarchy(scene, &mut changes, &mut coverage, &hierarchy);
    proof {
        assert forall|k: int| first <= k <= last implies shows_fact(
            *scene,
            changes@,
            #[trigger] facts@[k],
        ) by {
            assert(halo.has(k));
            assert(selects(ranges@, k));
            assert(shows_fact(*scene, selected, facts@[k]));
            lemma_still_shown(*scene, selected, changes@, facts@[k]);
        }
        let run = Span { start: first, end: (last + 1) as usize };
        assert forall|at: int|
            0 <= at < facts@.len() && run.start - 3 <= at < run.end + 3 && is_quiet_to(
                facts@,
                run,
                at,
            ) implies shows_fact(*scene, changes@, #[trigger] facts@[at]) by {
            assert(halo.has(at)) by {
                if at < halo.start {
                    assert(facts@[halo.start - 1] is Context);
                    assert(unchanged(facts@[halo.start - 1]));
                }
                if at >= halo.end {
                    assert(facts@[halo.end as int] is Context);
                    assert(unchanged(facts@[halo.end as int]));
                }
            }
            assert(selects(ranges@, at));
            assert(shows_fact(*scene, selected, facts@[at]));
            lemma_still_shown(*scene, selected, changes@, facts@[at]);
        }
        if let Some(root) = after_root {
            if scene.pair.after.leaves_in_order() {
                lemma_explains_scopes(
                    *scene,
                    facts@,
                    run,
                    root,
                    changes@,
                    signals@,
                    hierarchy@,
                );
            }
        }
        assert forall|claim: Claim| #[trigger]
            tally(changes@, claim) == facts_tally(
                *scene,
                facts@,
                first as int,
                last + 1,
                claim,
            ) by {
            lemma_selected_run(
                *scene,
                facts@,
                ranges@,
                first as int,
                last as int,
                facts@.len() as int,
                claim,
            );
            let added = changes@.skip(selected.len() as int);
            assert forall|k: int| 0 <= k < added.len() implies (
            #[trigger] added[k]) is Context || added[k] is Elision by {
                assert(added[k] == changes@[selected.len() + k]);
            }
            lemma_tally_plain(added, claim);
            assert(changes@ =~= selected + added);
            lemma_total_join(selected, added, change_weight(claim));
            lemma_tally_plain(blank, claim);
            assert(tally(selected, claim) == tally(blank, claim) + selected_tally(
                *scene,
                facts@,
                ranges@,
                facts@.len() as int,
                claim,
            ));
        }
    }
    Excerpt { coverage, changes }
}

/// Append the facts of all selected ranges, with an elision between two of them.
#[verifier::rlimit(60)]
#[verifier::spinoff_prover]
fn append_selected(
    scene: &PlanScene<'_>,
    facts: &Vec<LineFact>,
    ranges: &Vec<Span>,
    changes: &mut Vec<SourceChange>,
    coverage: &mut LineCoverage,
)
    requires
        scene.wf(),
        facts_ok(*scene, facts@),
        ranges_apart(ranges@),
        forall|k: int|
            0 <= k < ranges@.len() ==> (#[trigger] ranges@[k]).start < ranges@[k].end
                <= facts@.len(),
        changes_fit(old(changes)@, scene.before_count(), scene.after_count()),
        coverage_fits(*old(coverage), scene.before_count(), scene.after_count()),
    ensures
        changes_fit(final(changes)@, scene.before_count(), scene.after_count()),
        coverage_fits(*final(coverage), scene.before_count(), scene.after_count()),
        forall|i: int|
            0 <= i < facts@.len() && selects(ranges@, i) ==> shows_fact(
                *scene,
                final(changes)@,
                #[trigger] facts@[i],
            ),
        forall|claim: Claim| #[trigger]
            tally(final(changes)@, claim) == tally(old(changes)@, claim) + selected_tally(
                *scene,
                facts@,
                ranges@,
                facts@.len() as int,
                claim,
            ),
{
    let mut index: usize = 0;
    while index < ranges.len()
        invariant
            scene.wf(),
            facts_ok(*scene, facts@),
            ranges_apart(ranges@),
            forall|k: int|
                0 <= k < ranges@.len() ==> (#[trigger] ranges@[k]).start < ranges@[k].end
                    <= facts@.len(),
            index <= ranges@.len(),
            changes_fit(changes@, scene.before_count(), scene.after_count()),
            coverage_fits(*coverage, scene.before_count(), scene.after_count()),
            forall|i: int|
                0 <= i < facts@.len() && selects(ranges@.take(index as int), i) ==> shows_fact(
                    *scene,
                    changes@,
                    #[trigger] facts@[i],
                ),
            forall|claim: Claim| #[trigger]
                tally(changes@, claim) == tally(old(changes)@, claim) + selected_tally(
                    *scene,
                    facts@,
                    ranges@,
                    if index == 0 {
                        0
                    } else {
                        ranges@[index - 1].end as int
                    },
                    claim,
                ),
        decreases ranges@.len() - index,
    {
        let range = ranges[index];
        let ghost before_range = changes@;
        assert(ranges@[index as int].start < ranges@[index as int].end);
        if index > 0 {
            let previous = ranges[index - 1];
            assert(ranges@[index - 1].end < ranges@[index as int].start);
            let omitted = omitted_coverage(scene, facts, previous.end, range.start);
            changes.push(SourceChange::Elision(omitted));
        }
        proof {
            assert forall|claim: Claim| #[trigger]
                tally(changes@, claim) == tally(old(changes)@, claim) + selected_tally(
                    *scene,
                    facts@,
                    ranges@,
                    range.start as int,
                    claim,
                ) by {
                let from = if index == 0 {
                    0
                } else {
                    ranges@[index - 1].end as int
                };
                assert(tally(before_range, claim) == tally(old(changes)@, claim)
                    + selected_tally(*scene, facts@, ranges@, from, claim));
                assert forall|i: int| from <= i < range.start implies !#[trigger] selects(
                    ranges@,
                    i,
                ) by {
                    lemma_between(ranges@, index as int, i);
                }
                lemma_unselected(*scene, facts@, ranges@, from, range.start as int, claim);
                if index > 0 {
                    let fold = changes@[before_range.len() as int];
                    assert(changes@ =~= before_range.push(fold));
                    lemma_tally_push(before_range, fold, claim);
                }
            }
        }
        let mut at = range.start;
        while at < range.end
            invariant
                scene.wf(),
                facts_ok(*scene, facts@),
                range.start <= at <= range.end <= facts@.len(),
                changes_fit(changes@, scene.before_count(), scene.after_count()),
                coverage_fits(*coverage, scene.before_count(), scene.after_count()),
                before_range.is_prefix_of(changes@),
                forall|i: int|
                    range.start <= i < at ==> shows_fact(*scene, changes@, #[trigger] facts@[i]),
                index < ranges@.len(),
                ranges@[index as int] == range,
                forall|claim: Claim| #[trigger]
                    tally(changes@, claim) == tally(old(changes)@, claim) + selected_tally(
                        *scene,
                        facts@,
                        ranges@,
                        at as int,
                        claim,
                    ),
            decreases range.end - at,
        {
            let ghost earlier = changes@;
            let fact = facts[at];
            assert(fact_ok(*scene, facts@[at as int]));
            append_fact(scene, changes, coverage, &fact);
            proof {
                assert(ranges@[index as int].has(at as int));
                assert(selects(ranges@, at as int));
                assert forall|claim: Claim| #[trigger]
                    tally(changes@, claim) == tally(old(changes)@, claim) + selected_tally(
                        *scene,
                        facts@,
                        ranges@,
                        at + 1,
                        claim,
                    ) by {
                    assert(tally(earlier, claim) == tally(old(changes)@, claim) + selected_tally(
                        *scene,
                        facts@,
                        ranges@,
                        at as int,
                        claim,
                    ));
                }
                assert forall|i: int| range.start <= i < at + 1 implies shows_fact(
                    *scene,
                    changes@,
                    #[trigger] facts@[i],
                ) by {
                    if i < at {
                        lemma_still_shown(*scene, earlier, changes@, facts@[i]);
                    }
                }
            }
            at += 1;
        }
        proof {
            let shorter = ranges@.take(index as int);
            let longer = ranges@.take(index + 1);
            assert forall|i: int|
                0 <= i < facts@.len() && selects(longer, i) implies shows_fact(
                *scene,
                changes@,
                #[trigger] facts@[i],
            ) by {
                let k = choose|k: int| 0 <= k < longer.len() && (#[trigger] longer[k]).has(i);
                if k < index {
                    assert(shorter[k].has(i));
                    assert(selects(shorter, i));
                    lemma_still_shown(*scene, before_range, changes@, facts@[i]);
                }
            }
        }
        index += 1;
    }
    assert(ranges@.take(index as int) =~= ranges@);
    proof {
        assert forall|claim: Claim| #[trigger]
            tally(changes@, claim) == tally(old(changes)@, claim) + selected_tally(
                *scene,
                facts@,
                ranges@,
                facts@.len() as int,
                claim,
            ) by {
            let from = if index == 0 {
                0
            } else {
                ranges@[index - 1].end as int
            };
            assert forall|i: int| from <= i < facts@.len() implies !#[trigger] selects(
                ranges@,
                i,
            ) by {
                lemma_between(ranges@, ranges@.len() as int, i);
            }
            lemma_unselected(*scene, facts@, ranges@, from, facts@.len() as int, claim);
        }
    }
}

/// Some excerpt shows the fact.
pub open spec fn shown_somewhere(
    scene: PlanScene<'_>,
    excerpts: Seq<Excerpt>,
    fact: LineFact,
) -> bool {
    exists|k: int|
        0 <= k < excerpts.len() && shows_fact(scene, (#[trigger] excerpts[k]).changes@, fact)
}

/// One more excerpt hides nothing.
proof fn lemma_shown_push(
    scene: PlanScene<'_>,
    excerpts: Seq<Excerpt>,
    excerpt: Excerpt,
    fact: LineFact,
)
    requires
        shown_somewhere(scene, excerpts, fact) || shows_fact(scene, excerpt.changes@, fact),
    ensures
        shown_somewhere(scene, excerpts.push(excerpt), fact),
{
    let all = excerpts.push(excerpt);
    if shown_somewhere(scene, excerpts, fact) {
        let k = choose|k: int|
            0 <= k < excerpts.len() && shows_fact(scene, (#[trigger] excerpts[k]).changes@, fact);
        assert(all[k] == excerpts[k]);
    } else {
        assert(all[excerpts.len() as int] == excerpt);
    }
}

/// Group signals whose halos meet, and plan one excerpt per group.
///
/// Every signal is shown.
#[verifier::rlimit(60)]
#[verifier::spinoff_prover]
pub fn plan_line_facts(scene: &PlanScene<'_>, facts: &Vec<LineFact>, after_root: Option<NodeId>) -> (
    excerpts: Vec<Excerpt>)
    requires
        scene.wf(),
        facts_ok(*scene, facts@),
        after_root matches Some(root) ==> scene.pair.after.has_node(root as int),
    ensures
        excerpts_fit(*scene, excerpts@),
        forall|k: int|
            0 <= k < facts@.len() && !((#[trigger] facts@[k]) is Context) ==> shown_somewhere(
                *scene,
                excerpts@,
                facts@[k],
            ),
        (forall|k: int| 0 <= k < facts@.len() ==> (#[trigger] facts@[k]) is Context)
            ==> excerpts@.len() == 0,
        claims_drawn(*scene, facts@, excerpts@),
        exists|runs: Seq<Span>| #[trigger]
            are_runs(signals_of(facts@), facts@.len() as int, runs) && explain_runs(
                *scene,
                facts@,
                runs,
                after_root,
                excerpts@,
            ),
{
    let ghost mut runs = Seq::<Span>::empty();
    let mut excerpts: Vec<Excerpt> = Vec::new();
    let mut group: Option<Span> = None;
    let mut index: usize = 0;
    while index < facts.len()
        invariant
            scene.wf(),
            facts_ok(*scene, facts@),
            after_root matches Some(root) ==> scene.pair.after.has_node(root as int),
            index <= facts@.len(),
            excerpts_fit(*scene, excerpts@),
            group matches Some(open) ==> open.start < open.end <= index,
            forall|k: int|
                0 <= k < index && !((#[trigger] facts@[k]) is Context) ==> shown_somewhere(
                    *scene,
                    excerpts@,
                    facts@[k],
                ) || (group is Some && group->0.has(k)),
            group is None ==> excerpts@.len() == 0,
            group is None ==> forall|k: int| 0 <= k < index ==> (#[trigger] facts@[k]) is Context,
            group is Some ==> exists|k: int|
                0 <= k < index && !((#[trigger] facts@[k]) is Context),
            group matches Some(open) ==> forall|k: int|
                open.end <= k < index ==> (#[trigger] facts@[k]) is Context,
            are_open_runs(signals_of(facts@), index as int, runs, group),
            explain_runs(*scene, facts@, runs, after_root, excerpts@),
            forall|claim: Claim| #[trigger]
                excerpts_tally(excerpts@, claim) == facts_tally(
                    *scene,
                    facts@,
                    0,
                    match group {
                        Some(open) => open.start as int,
                        None => index as int,
                    },
                    claim,
                ),
        decreases facts@.len() - index,
    {
        let ghost drawn = excerpts@;
        let ghost opened = group;
        proof {
            assert(facts.len() <= usize::MAX);
            assert(signals_of(facts@)(index as int) == !(facts@[index as int] is Context));
            lemma_runs_step(signals_of(facts@), index, runs, group);
        }
        if facts[index].is_signal() {
            let ghost earlier = excerpts@;
            let ghost previous = group;
            match group {
                None => {
                    group = Some(Span { start: index, end: index + 1 });
                },
                Some(open) => {
                    // A single omitted context row costs the same as separating the excerpts.
                    if context_gap_fits_halos(index - open.end) {
                        group = Some(Span { start: open.start, end: index + 1 });
                    } else {
                        let excerpt = plan_line_excerpt(
                            scene,
                            facts,
                            open.start,
                            open.end - 1,
                            after_root,
                        );
                        proof {
                            assert forall|k: int|
                                0 <= k < index && !((
                                #[trigger] facts@[k]) is Context) implies shown_somewhere(
                                *scene,
                                excerpts@.push(excerpt),
                                facts@[k],
                            ) by {
                                if open.has(k) {
                                    assert(shows_fact(*scene, excerpt.changes@, facts@[k]));
                                }
                                lemma_shown_push(*scene, excerpts@, excerpt, facts@[k]);
                            }
                        }
                        proof {
                            assert forall|claim: Claim| #[trigger]
                                excerpts_tally(excerpts@.push(excerpt), claim) == facts_tally(
                                    *scene,
                                    facts@,
                                    0,
                                    index as int,
                                    claim,
                                ) by {
                                lemma_group_drawn(
                                    *scene,
                                    facts@,
                                    excerpts@,
                                    excerpt,
                                    open,
                                    index as int,
                                    claim,
                                );
                            }
                        }
                        proof {
                            lemma_explain_push(
                                *scene,
                                facts@,
                                runs,
                                after_root,
                                excerpts@,
                                open,
                                excerpt,
                            );
                            runs = runs.push(open);
                        }
                        excerpts.push(excerpt);
                        group = Some(Span { start: index, end: index + 1 });
                    }
                },
            }
        }
        proof {
            if opened is None && group is None {
                assert forall|claim: Claim| #[trigger]
                    excerpts_tally(excerpts@, claim) == facts_tally(
                        *scene,
                        facts@,
                        0,
                        index + 1,
                        claim,
                    ) by {
                    assert(excerpts_tally(drawn, claim) == facts_tally(
                        *scene,
                        facts@,
                        0,
                        index as int,
                        claim,
                    ));
                    assert(facts@[index as int] is Context);
                }
            }
        }
        index += 1;
    }
    if let Some(open) = group {
        let excerpt = plan_line_excerpt(scene, facts, open.start, open.end - 1, after_root);
        proof {
            assert forall|k: int|
                0 <= k < facts@.len() && !((
                #[trigger] facts@[k]) is Context) implies shown_somewhere(
                *scene,
                excerpts@.push(excerpt),
                facts@[k],
            ) by {
                if open.has(k) {
                    assert(shows_fact(*scene, excerpt.changes@, facts@[k]));
                }
                lemma_shown_push(*scene, excerpts@, excerpt, facts@[k]);
            }
        }
        proof {
            assert forall|claim: Claim| #[trigger]
                excerpts_tally(excerpts@.push(excerpt), claim) == facts_tally(
                    *scene,
                    facts@,
                    0,
                    facts@.len() as int,
                    claim,
                ) by {
                lemma_group_drawn(
                    *scene,
                    facts@,
                    excerpts@,
                    excerpt,
                    open,
                    facts@.len() as int,
                    claim,
                );
            }
            lemma_explain_push(*scene, facts@, runs, after_root, excerpts@, open, excerpt);
            runs = runs.push(open);
        }
        excerpts.push(excerpt);
    }
    assert(are_runs(signals_of(facts@), facts@.len() as int, runs));
    excerpts
}

/// The facts are those of the region, and each excerpt explains a run of their signals.
pub open spec fn explains_region(
    scene: PlanScene<'_>,
    before: Span,
    after: Span,
    composites: Seq<NodeLink>,
    after_root: Option<NodeId>,
    basis: AnchorBasis,
    facts: Seq<LineFact>,
    runs: Seq<Span>,
    excerpts: Seq<Excerpt>,
) -> bool {
    &&& are_region_facts(scene, before, after, composites, basis, facts)
    &&& are_runs(signals_of(facts), facts.len() as int, runs)
    &&& explain_runs(scene, facts, runs, after_root, excerpts)
}

/// Each excerpt explains a run of the signals of the region.
#[verifier::opaque]
pub open spec fn region_explained(
    scene: PlanScene<'_>,
    before: Span,
    after: Span,
    composites: Seq<NodeLink>,
    after_root: Option<NodeId>,
    basis: AnchorBasis,
    excerpts: Seq<Excerpt>,
) -> bool {
    exists|facts: Seq<LineFact>, runs: Seq<Span>| #[trigger]
        explains_region(
            scene,
            before,
            after,
            composites,
            after_root,
            basis,
            facts,
            runs,
            excerpts,
        )
}

/// Facts that are signals.
pub open spec fn signals_of(facts: Seq<LineFact>) -> spec_fn(int) -> bool {
    |k: int| !(facts[k] is Context)
}

/// Each excerpt explains the run at its place.
pub open spec fn explain_runs(
    scene: PlanScene<'_>,
    facts: Seq<LineFact>,
    runs: Seq<Span>,
    after_root: Option<NodeId>,
    excerpts: Seq<Excerpt>,
) -> bool {
    &&& excerpts.len() == runs.len()
    &&& forall|k: int|
        0 <= k < runs.len() ==> explains_facts(
            scene,
            facts,
            #[trigger] runs[k],
            after_root,
            excerpts[k].changes@,
        )
}

proof fn lemma_explain_push(
    scene: PlanScene<'_>,
    facts: Seq<LineFact>,
    runs: Seq<Span>,
    after_root: Option<NodeId>,
    excerpts: Seq<Excerpt>,
    run: Span,
    excerpt: Excerpt,
)
    requires
        explain_runs(scene, facts, runs, after_root, excerpts),
        explains_facts(scene, facts, run, after_root, excerpt.changes@),
    ensures
        explain_runs(scene, facts, runs.push(run), after_root, excerpts.push(excerpt)),
{
    assert forall|k: int| 0 <= k < runs.push(run).len() implies explains_facts(
        scene,
        facts,
        #[trigger] runs.push(run)[k],
        after_root,
        excerpts.push(excerpt)[k].changes@,
    ) by {
        if k < runs.len() {
            assert(explains_facts(scene, facts, runs[k], after_root, excerpts[k].changes@));
        }
    }
}

/// The excerpt of a group, behind those of the groups before it.
proof fn lemma_group_drawn(
    scene: PlanScene<'_>,
    facts: Seq<LineFact>,
    excerpts: Seq<Excerpt>,
    excerpt: Excerpt,
    open: Span,
    end: int,
    claim: Claim,
)
    requires
        0 <= open.start < open.end <= end <= facts.len(),
        forall|k: int| open.end <= k < end ==> (#[trigger] facts[k]) is Context,
        excerpts_tally(excerpts, claim) == facts_tally(scene, facts, 0, open.start as int, claim),
        tally(excerpt.changes@, claim) == facts_tally(
            scene,
            facts,
            open.start as int,
            open.end as int,
            claim,
        ),
    ensures
        excerpts_tally(excerpts.push(excerpt), claim) == facts_tally(scene, facts, 0, end, claim),
{
    lemma_total_push(excerpts, excerpt, excerpt_weight(claim));
    lemma_runs_join(scene, facts, 0, open.start as int, open.end as int, claim);
    lemma_runs_join(scene, facts, 0, open.end as int, end, claim);
    lemma_run_unchanged(scene, facts, open.end as int, end, claim);
}

/// The old row is replaced by some excerpt, or belongs to an unchanged or retained fact.
#[verifier::opaque]
pub open spec fn old_row_accounted(
    scene: PlanScene<'_>,
    excerpts: Seq<Excerpt>,
    row: int,
) -> bool {
    exists|fact: LineFact|
        fact_ok(scene, fact) && #[trigger] before_of(fact).has(row) && (fact is Context
            || shown_somewhere(scene, excerpts, fact))
}

/// The current row is shown by some excerpt, or is unchanged.
#[verifier::opaque]
pub open spec fn new_row_accounted(
    scene: PlanScene<'_>,
    excerpts: Seq<Excerpt>,
    row: int,
) -> bool {
    exists|fact: LineFact|
        fact_ok(scene, fact) && #[trigger] after_of(fact).has(row) && (fact is Context
            || shown_somewhere(scene, excerpts, fact))
}

/// The excerpts draw facts that account for every row of the region once.
pub open spec fn draws_region(
    scene: PlanScene<'_>,
    before: Span,
    after: Span,
    composites: Seq<NodeLink>,
    basis: AnchorBasis,
    facts: Seq<LineFact>,
    excerpts: Seq<Excerpt>,
) -> bool {
    &&& are_region_facts(scene, before, after, composites, basis, facts)
    &&& claims_drawn(scene, facts, excerpts)
    &&& forall|k: int|
        0 <= k < facts.len() && !((#[trigger] facts[k]) is Context) ==> shown_somewhere(
            scene,
            excerpts,
            facts[k],
        )
}

/// The excerpts draw the region.
#[verifier::opaque]
pub open spec fn region_drawn(
    scene: PlanScene<'_>,
    before: Span,
    after: Span,
    composites: Seq<NodeLink>,
    basis: AnchorBasis,
    excerpts: Seq<Excerpt>,
) -> bool {
    exists|facts: Seq<LineFact>| #[trigger]
        draws_region(scene, before, after, composites, basis, facts, excerpts)
}

/// Facts that tile rows claim none of the rows behind them.
proof fn lemma_claims_end(
    scene: PlanScene<'_>,
    facts: Seq<LineFact>,
    start: Corner,
    end: Corner,
    claim: Claim,
)
    requires
        scene.before_count() < usize::MAX,
        scene.after_count() < usize::MAX,
        facts_ok(scene, facts),
        tiles(facts, start, end),
    ensures
        facts_tally(scene, facts, 0, facts.len() as int, claim) <= 1,
        start.before <= end.before,
        start.after <= end.after,
        facts_tally(scene, facts, 0, facts.len() as int, claim) > 0 ==> match claim {
            Claim::Removed(line) => start.before <= line - 1 < end.before,
            Claim::Added(line) => start.after <= line - 1 < end.after,
            Claim::Reflowed(line) => start.after <= line - 1 < end.after,
            _ => false,
        },
    decreases facts.len(),
{
    if facts.len() > 0 {
        let rest = facts.drop_last();
        let last = facts.last();
        assert(fact_ok(scene, facts[facts.len() - 1]));
        assert forall|k: int| 0 <= k < rest.len() implies fact_ok(scene, #[trigger] rest[k]) by {
            assert(facts[k] == rest[k]);
        }
        lemma_claims_end(scene, rest, start, start_of(last), claim);
        lemma_same_facts(scene, rest, facts, rest.len() as int, claim);
    }
}

/// Only the facts of the range count.
proof fn lemma_same_facts(
    scene: PlanScene<'_>,
    left: Seq<LineFact>,
    right: Seq<LineFact>,
    end: int,
    claim: Claim,
)
    requires
        0 <= end <= left.len(),
        end <= right.len(),
        forall|k: int| 0 <= k < end ==> (#[trigger] left[k]) == right[k],
    ensures
        facts_tally(scene, left, 0, end, claim) == facts_tally(scene, right, 0, end, claim),
    decreases end,
{
    if end > 0 {
        lemma_same_facts(scene, left, right, end - 1, claim);
        assert(left[end - 1] == right[end - 1]);
    }
}

/// In a region that is reviewed line by line every row is owned once: no old line is removed
/// twice, no current line is added or reflowed twice, and nothing outside the region is marked.
pub proof fn law_regions_own_rows_once(
    scene: PlanScene<'_>,
    before: Span,
    after: Span,
    composites: Seq<NodeLink>,
    basis: AnchorBasis,
    excerpts: Seq<Excerpt>,
    claim: Claim,
)
    requires
        scene.wf(),
        region_drawn(scene, before, after, composites, basis, excerpts),
    ensures
        excerpts_tally(excerpts, claim) <= 1,
        excerpts_tally(excerpts, claim) > 0 ==> match claim {
            Claim::Removed(line) => before.has(line - 1),
            Claim::Added(line) => after.has(line - 1),
            Claim::Reflowed(line) => after.has(line - 1),
            _ => false,
        },
{
    reveal(region_drawn);
    let facts = choose|facts: Seq<LineFact>| #[trigger]
        draws_region(scene, before, after, composites, basis, facts, excerpts);
    let start = Corner { before: before.start as int, after: after.start as int };
    let end = Corner { before: before.end as int, after: after.end as int };
    scene.pair.before.source.lemma_line_count();
    scene.pair.after.source.lemma_line_count();
    lemma_claims_end(scene, facts, start, end, claim);
    assert(excerpts_tally(excerpts, claim) == facts_tally(
        scene,
        facts,
        0,
        facts.len() as int,
        claim,
    ));
}

/// Where no subtree is matched, no row of a region is shown as reflow.
pub proof fn law_no_reflow_without_matched_subtrees(
    scene: PlanScene<'_>,
    before: Span,
    after: Span,
    composites: Seq<NodeLink>,
    basis: AnchorBasis,
    excerpts: Seq<Excerpt>,
    line: usize,
)
    requires
        region_drawn(scene, before, after, composites, basis, excerpts),
        composites.len() == 0,
    ensures
        excerpts_tally(excerpts, Claim::Reflowed(line)) == 0,
{
    reveal(region_drawn);
    let facts = choose|facts: Seq<LineFact>| #[trigger]
        draws_region(scene, before, after, composites, basis, facts, excerpts);
    let claim = Claim::Reflowed(line);
    lemma_no_reflow_facts(scene, before, after, composites, basis, facts);
    lemma_nothing_reflows(scene, facts, facts.len() as int, line);
    assert(excerpts_tally(excerpts, claim) == facts_tally(
        scene,
        facts,
        0,
        facts.len() as int,
        claim,
    ));
}

/// Without retained structure nothing reflows.
proof fn lemma_nothing_reflows(scene: PlanScene<'_>, facts: Seq<LineFact>, end: int, line: usize)
    requires
        0 <= end <= facts.len(),
        forall|k: int| 0 <= k < facts.len() ==> !((#[trigger] facts[k]) is Reflow),
    ensures
        facts_tally(scene, facts, 0, end, Claim::Reflowed(line)) == 0,
    decreases end,
{
    if end > 0 {
        lemma_nothing_reflows(scene, facts, end - 1, line);
        assert(!(facts[end - 1] is Reflow));
    }
}

/// Plan one region of physical lines.
///
/// No row is hidden that is not unchanged: every row of either revision is shown, or equals its
/// partner byte for byte.
pub fn plan_line_region(
    scene: &PlanScene<'_>,
    before: Span,
    after: Span,
    composites: &[NodeLink],
    after_root: Option<NodeId>,
    basis: AnchorBasis,
) -> (excerpts: Vec<Excerpt>)
    requires
        scene.wf(),
        before.start <= before.end <= scene.before_count(),
        after.start <= after.end <= scene.after_count(),
        forall|k: int|
            0 <= k < composites@.len() ==> scene.graph.tree.composites@.contains(
                #[trigger] composites@[k],
            ),
        after_root matches Some(root) ==> scene.pair.after.has_node(root as int),
    ensures
        excerpts_fit(*scene, excerpts@),
        forall|row: int|
            before.has(row) ==> #[trigger] old_row_accounted(*scene, excerpts@, row),
        forall|row: int| after.has(row) ==> #[trigger] new_row_accounted(*scene, excerpts@, row),
        region_drawn(*scene, before, after, composites@, basis, excerpts@),
        region_explained(*scene, before, after, composites@, after_root, basis, excerpts@),
{
    let facts = region_facts(scene, before, after, composites, basis);
    let excerpts = plan_line_facts(scene, &facts, after_root);
    proof {
        reveal(region_drawn);
        assert(draws_region(*scene, before, after, composites@, basis, facts@, excerpts@));
        reveal(region_explained);
        let runs = choose|runs: Seq<Span>| #[trigger]
            are_runs(signals_of(facts@), facts@.len() as int, runs) && explain_runs(
                *scene,
                facts@,
                runs,
                after_root,
                excerpts@,
            );
        assert(explains_region(
            *scene,
            before,
            after,
            composites@,
            after_root,
            basis,
            facts@,
            runs,
            excerpts@,
        ));
        reveal(old_row_accounted);
        reveal(new_row_accounted);
        let start = Corner { before: before.start as int, after: after.start as int };
        let end = Corner { before: before.end as int, after: after.end as int };
        assert forall|row: int| before.has(row) implies #[trigger] old_row_accounted(
            *scene,
            excerpts@,
            row,
        ) by {
            let k = lemma_tiles_cover_before(facts@, start, end, row);
            assert(fact_ok(*scene, facts@[k]));
            assert(before_of(facts@[k]).has(row));
        }
        assert forall|row: int| after.has(row) implies #[trigger] new_row_accounted(
            *scene,
            excerpts@,
            row,
        ) by {
            let k = lemma_tiles_cover_after(facts@, start, end, row);
            assert(fact_ok(*scene, facts@[k]));
            assert(after_of(facts@[k]).has(row));
        }
    }
    excerpts
}

} // verus!

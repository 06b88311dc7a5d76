//! Rows of structure-aware units: layout changes, comments, and marked payload.

use crate::context::{context_gap_fits_halos, CONTEXT_HALO_RADIUS};
use crate::correspondence::geometry::{row_span, spans_overlap, zero_based_lines};
use crate::correspondence::lines::rows_ascend;
use crate::correspondence::links::{
    LeafLink, LeafRelation, LineLink, MatchedUnit, NodeLink, Placement,
};
use crate::correspondence::scopes::{ascending, insert_ascending};
use crate::correspondence::{link_in, links_in};
use crate::plan::edits::{
    added_edits, all_listed, claimed_lines, claims_after, claims_clash, come_from_links,
    deduplicate_line_edits, edits_ascend, edits_compete, edits_fit, is_comment, is_link_edit,
    is_significant, lemma_lists_more, line_edits_compete_for_source_rows, linked_in_unit,
    lists_added_comments, lists_links, lists_removed_comments, modified_payload_edits,
    removed_edits, significant_leaf, PresentationDependents,
};
use crate::plan::excerpts::{
    excerpts_fit, holds, new_row_accounted, old_row_accounted, plan_line_region, region_drawn,
    region_explained, Excerpt,
};
use crate::plan::facts::AnchorBasis;
use crate::plan::regions::{retained_regions, takes_regions, RetainedRegion};
use crate::plan::rows::{LineEdit, RowMarks, UnitRow};
use crate::plan::scene::PlanScene;
use crate::plan::selection::{excerpts_drawn, row_shown_somewhere, rows_fit, select_review_excerpts};
use crate::plan::tally::{
    claims_on_current, excerpts_tally, lemma_rows_tally_push, lemma_run_holds, lemma_run_nothing,
    lemma_run_once,
    lemma_run_single, owned_once, row_claims, row_weight, rows_tally, run_total, Claim,
};
use crate::presentation::{row_marks, source_row, DiffMark, SourceRow};
use crate::span::Span;
use crate::syntax::{NodeId, SyntaxTree};
use crate::text::{all_white, blank};
use vstd::prelude::*;

verus! {

/// The current row is unchanged inside the ranges.
pub open spec fn row_linked(lines: Seq<LineLink>, before: Span, after: Span, row: int) -> bool {
    exists|k: int|
        0 <= k < lines.len() && link_in(#[trigger] lines[k], before, after) && lines[k].after
            == row
}

/// Rows of a unit whose layout changed: linked rows as context, the others as reflow.
pub open spec fn is_reflow(
    scene: PlanScene<'_>,
    before: Span,
    after: Span,
    rows: Seq<UnitRow>,
) -> bool {
    &&& rows.len() == after.end - after.start
    &&& forall|k: int|
        0 <= k < rows.len() ==> (#[trigger] rows[k]) == if row_linked(scene.graph.source.lines@,
            before,
            after,
            after.start + k,
        ) {
            UnitRow::Context((after.start + k + 1) as usize)
        } else {
            UnitRow::Reflow((after.start + k + 1) as usize)
        }
}

/// Rows of a unit whose layout changed.
fn reflow_rows(scene: &PlanScene<'_>, before: Span, after: Span) -> (rows: Vec<UnitRow>)
    requires
        scene.wf(),
        after.start <= after.end <= scene.after_count(),
    ensures
        is_reflow(*scene, before, after, rows@),
        rows_fit(*scene, rows@),
{
    let links = scene.graph.source.line_links_in(before, after);
    proof {
        scene.pair.after.source.lemma_line_count();
        crate::plan::facts::lemma_selected(scene.graph.source.lines@, before, after);
        let pred = |link: LineLink| link_in(link, before, after);
        scene.graph.source.lines@.filter_lemma(pred);
        assert forall|k: int|
            0 <= k < scene.graph.source.lines@.len() && link_in(
                #[trigger] scene.graph.source.lines@[k],
                before,
                after,
            ) implies links@.contains(scene.graph.source.lines@[k]) by {
            assert(pred(scene.graph.source.lines@[k]));
        }
    }
    let mut rows: Vec<UnitRow> = Vec::new();
    let mut row = after.start;
    let mut at: usize = 0;
    while row < after.end
        invariant
            after.start <= row <= after.end <= scene.after_count() < usize::MAX,
            at <= links@.len(),
            crate::correspondence::lines::rows_ascend(links@),
            forall|k: int| 0 <= k < at ==> (#[trigger] links@[k]).after < row,
            forall|k: int|
                0 <= k < scene.graph.source.lines@.len() && link_in(
                    #[trigger] scene.graph.source.lines@[k],
                    before,
                    after,
                ) ==> links@.contains(scene.graph.source.lines@[k]),
            forall|k: int|
                0 <= k < links@.len() ==> scene.graph.source.lines@.contains(#[trigger] links@[k])
                    && link_in(links@[k], before, after),
            rows@.len() == row - after.start,
            rows_fit(*scene, rows@),
            forall|k: int|
                0 <= k < rows@.len() ==> (#[trigger] rows@[k]) == if row_linked(scene.graph.source.lines@,
                    before,
                    after,
                    after.start + k,
                ) {
                    UnitRow::Context((after.start + k + 1) as usize)
                } else {
                    UnitRow::Reflow((after.start + k + 1) as usize)
                },
        decreases after.end - row,
    {
        while at < links.len() && links[at].after < row
            invariant
                at <= links@.len(),
                forall|k: int| 0 <= k < at ==> (#[trigger] links@[k]).after < row,
            decreases links@.len() - at,
        {
            at += 1;
        }
        let linked = at < links.len() && links[at].after == row;
        proof {
            let lines = scene.graph.source.lines@;
            if linked {
                assert(lines.contains(links@[at as int]));
                let k = choose|k: int| 0 <= k < lines.len() && lines[k] == links@[at as int];
                assert(link_in(lines[k], before, after));
            }
            if row_linked(scene.graph.source.lines@, before, after, row as int) {
                let k = choose|k: int|
                    0 <= k < lines.len() && link_in(#[trigger] lines[k], before, after)
                        && lines[k].after == row;
                assert(links@.contains(lines[k]));
                let i = choose|i: int| 0 <= i < links@.len() && links@[i] == lines[k];
                assert(i >= at);
                if i > at {
                    assert(links@[at as int].after < links@[i].after);
                }
            }
        }
        rows.push(
            if linked {
                UnitRow::Context(row + 1)
            } else {
                UnitRow::Reflow(row + 1)
            },
        );
        row += 1;
    }
    rows
}

/// Lines of comments below a node, ascending.
fn comment_lines(tree: &SyntaxTree, unit: NodeId) -> (lines: Vec<usize>)
    requires
        tree.wf(),
        tree.has_node(unit as int),
    ensures
        ascending(lines@),
        forall|line: usize| #[trigger]
            lines@.contains(line) <==> on_comment(
                *tree,
                unit as int,
                tree.nodes@[unit as int].subtree_end as int,
                line,
            ),
{
    proof {
        assert(crate::syntax::node_fits(
            tree.nodes@[unit as int],
            unit as int,
            tree.nodes@.len() as int,
            tree.source.data().len() as int,
        ));
    }
    let end = tree.nodes[unit].subtree_end;
    let mut lines: Vec<usize> = Vec::new();
    let mut id = unit;
    while id < end
        invariant
            tree.wf(),
            unit <= id <= end <= tree.nodes@.len(),
            ascending(lines@),
            forall|line: usize| #[trigger]
                lines@.contains(line) <==> on_comment(*tree, unit as int, id as int, line),
        decreases end - id,
    {
        let ghost earlier = lines@;
        let node = &tree.nodes[id];
        let comment = match node.leaf {
            Some(leaf) => matches!(leaf.channel, crate::syntax::ContentChannel::Comment),
            None => false,
        };
        if comment {
            let mut line = node.lines.start;
            while line < node.lines.end
                invariant
                    *node == tree.nodes@[id as int],
                    node.lines.start <= line,
                    line <= node.lines.end || line == node.lines.start,
                    ascending(lines@),
                    forall|other: usize| #[trigger]
                        lines@.contains(other) <==> earlier.contains(other) || (node.lines.start
                            <= other < line),
                decreases node.lines.end - line,
            {
                insert_ascending(&mut lines, line);
                line += 1;
            }
        }
        proof {
            assert forall|line: usize| #[trigger]
                lines@.contains(line) <==> on_comment(*tree, unit as int, id + 1, line) by {
                assert(earlier.contains(line) <==> on_comment(
                    *tree,
                    unit as int,
                    id as int,
                    line,
                ));
                if on_comment(*tree, unit as int, id + 1, line) {
                    let other = choose|other: int|
                        unit <= other < id + 1 && is_comment(#[trigger] tree.nodes@[other])
                            && tree.nodes@[other].lines.has(line as int);
                    if other < id {
                        assert(is_comment(tree.nodes@[other]));
                    }
                }
                if on_comment(*tree, unit as int, id as int, line) {
                    let other = choose|other: int|
                        unit <= other < id && is_comment(#[trigger] tree.nodes@[other])
                            && tree.nodes@[other].lines.has(line as int);
                    assert(is_comment(tree.nodes@[other]));
                }
                if comment && node.lines.has(line as int) {
                    assert(is_comment(tree.nodes@[id as int]));
                }
            }
        }
        id += 1;
    }
    lines
}

/// Some comment between two positions of the arena covers the line.
pub open spec fn on_comment(tree: SyntaxTree, start: int, end: int, line: usize) -> bool {
    exists|id: int|
        start <= id < end && is_comment(#[trigger] tree.nodes@[id]) && tree.nodes@[id].lines.has(
            line as int,
        )
}

/// Every edit of the list is a row.
pub open spec fn edits_in_rows(edits: Seq<LineEdit>, rows: Seq<UnitRow>) -> bool {
    forall|k: int| 0 <= k < edits.len() ==> rows.contains(UnitRow::Edit(#[trigger] edits[k]))
}

/// Edits as rows.
pub open spec fn edit_rows(edits: Seq<LineEdit>) -> Seq<UnitRow> {
    Seq::new(edits.len(), |k: int| UnitRow::Edit(edits[k]))
}

/// How often the row at a position makes the claim, if no edit takes its line.
pub open spec fn kept_weight(
    base: Seq<UnitRow>,
    first_row: int,
    edits: Seq<LineEdit>,
    claim: Claim,
) -> spec_fn(int) -> nat {
    |k: int|
        if claims_after(edits, (first_row + k + 1) as usize) {
            0
        } else {
            row_claims(base[k], claim)
        }
}

/// How often edits, and the rows whose line they do not take, make the claim.
pub open spec fn woven_claims(
    base: Seq<UnitRow>,
    first_row: int,
    edits: Seq<LineEdit>,
    claim: Claim,
) -> nat {
    rows_tally(edit_rows(edits), claim) + run_total(
        kept_weight(base, first_row, edits, claim),
        0,
        base.len() as int,
    )
}

/// The excerpts claim what the edits and the rows whose line they do not take claim.
#[verifier::opaque]
pub open spec fn claims_woven(
    base: Seq<UnitRow>,
    first_row: int,
    edits: Seq<LineEdit>,
    excerpts: Seq<Excerpt>,
) -> bool {
    forall|claim: Claim| #[trigger]
        excerpts_tally(excerpts, claim) == woven_claims(base, first_row, edits, claim)
}

/// Every row shows its own line: unchanged, marked or reflowed.
pub open spec fn rows_numbered(base: Seq<UnitRow>, first_row: int) -> bool {
    forall|k: int|
        0 <= k < base.len() ==> match #[trigger] base[k] {
            UnitRow::Context(line) | UnitRow::Marked(line) | UnitRow::Reflow(line) => line
                == first_row + k + 1,
            UnitRow::Edit(_) => false,
        }
}

/// Where no two edits claim a line, the excerpts of a unit own every line once.
pub proof fn law_units_own_rows_once(
    base: Seq<UnitRow>,
    first_row: int,
    edits: Seq<LineEdit>,
    excerpts: Seq<Excerpt>,
)
    requires
        claims_woven(base, first_row, edits, excerpts),
        rows_numbered(base, first_row),
        0 <= first_row,
        !edits_compete(edits),
    ensures
        owned_once(excerpts),
{
    reveal(claims_woven);
    let count = base.len() as int;
    assert forall|line: usize| #[trigger] excerpts_tally(excerpts, Claim::Removed(line)) <= 1 by {
        let claim = Claim::Removed(line);
        let weight = row_weight(edit_rows(edits), claim);
        assert forall|i: int, j: int| 0 <= i < j < edits.len() implies #[trigger] weight(i) == 0
            || #[trigger] weight(j) == 0 by {
            assert(!claims_clash(edits[i], edits[j]));
        }
        lemma_run_once(weight, 0, edits.len() as int);
        let kept = kept_weight(base, first_row, edits, claim);
        assert forall|k: int| 0 <= k < count implies #[trigger] kept(k) == 0 by {
            assert(base[k] == base[k]);
        }
        lemma_run_nothing(kept, 0, count);
    }
    assert forall|line: usize| #[trigger] claims_on_current(excerpts, line) <= 1 by {
        let added = Claim::Added(line);
        let weight = row_weight(edit_rows(edits), added);
        assert forall|i: int, j: int| 0 <= i < j < edits.len() implies #[trigger] weight(i) == 0
            || #[trigger] weight(j) == 0 by {
            assert(!claims_clash(edits[i], edits[j]));
        }
        lemma_run_once(weight, 0, edits.len() as int);
        lemma_run_nothing(row_weight(edit_rows(edits), Claim::Edited(line)), 0, edits.len() as int);
        lemma_run_nothing(
            row_weight(edit_rows(edits), Claim::Reflowed(line)),
            0,
            edits.len() as int,
        );
        let marked = kept_weight(base, first_row, edits, Claim::Edited(line));
        let reflowed = kept_weight(base, first_row, edits, Claim::Reflowed(line));
        let plain = kept_weight(base, first_row, edits, added);
        assert forall|k: int| 0 <= k < count implies #[trigger] plain(k) == 0 by {
            assert(base[k] == base[k]);
        }
        lemma_run_nothing(plain, 0, count);
        let at = line - 1 - first_row;
        assert forall|k: int| 0 <= k < count && k != at implies #[trigger] marked(k) == 0 by {
            assert(base[k] == base[k]);
        }
        assert forall|k: int| 0 <= k < count && k != at implies #[trigger] reflowed(k) == 0 by {
            assert(base[k] == base[k]);
        }
        if 0 <= at < count {
            lemma_run_single(marked, 0, count, at);
            lemma_run_single(reflowed, 0, count, at);
            assert(base[at] == base[at]);
        } else {
            lemma_run_nothing(marked, 0, count);
            lemma_run_nothing(reflowed, 0, count);
        }
        if exists|k: int| 0 <= k < edits.len() && #[trigger] weight(k) != 0 {
            let k = choose|k: int| 0 <= k < edits.len() && #[trigger] weight(k) != 0;
            assert(edits[k].after == Some(line));
            assert(claims_after(edits, line));
            if 0 <= at < count {
                assert((first_row + at + 1) as usize == line);
            }
        } else {
            lemma_run_nothing(weight, 0, edits.len() as int);
        }
    }
}

/// One more edit, or one more row of the unit, makes its claims.
proof fn lemma_woven(
    base: Seq<UnitRow>,
    first_row: int,
    edits: Seq<LineEdit>,
    rows: Seq<UnitRow>,
    next: int,
    index: int,
    claim: Claim,
)
    requires
        woven_to(base, first_row, edits, rows, next, index, claim),
        0 <= next <= edits.len(),
        0 <= index <= base.len(),
    ensures
        next < edits.len() ==> woven_to(
            base,
            first_row,
            edits,
            rows.push(UnitRow::Edit(edits[next])),
            next + 1,
            index,
            claim,
        ),
        index < base.len() && !claims_after(edits, (first_row + index + 1) as usize) ==> woven_to(
            base,
            first_row,
            edits,
            rows.push(base[index]),
            next,
            index + 1,
            claim,
        ),
        index < base.len() && claims_after(edits, (first_row + index + 1) as usize) ==> woven_to(
            base,
            first_row,
            edits,
            rows,
            next,
            index + 1,
            claim,
        ),
{
    reveal(woven_to);
    if next < edits.len() {
        lemma_rows_tally_push(rows, UnitRow::Edit(edits[next]), claim);
    }
    if index < base.len() {
        lemma_rows_tally_push(rows, base[index], claim);
    }
}

/// The rows claim what the first edits and the first rows of the unit claim.
#[verifier::opaque]
spec fn woven_to(
    base: Seq<UnitRow>,
    first_row: int,
    edits: Seq<LineEdit>,
    rows: Seq<UnitRow>,
    next: int,
    index: int,
    claim: Claim,
) -> bool {
    rows_tally(rows, claim) == run_total(row_weight(edit_rows(edits), claim), 0, next) + run_total(
        kept_weight(base, first_row, edits, claim),
        0,
        index,
    )
}

/// Put edits between the rows of a unit: each before the first line that follows it. Lines that
/// an edit claims are not shown twice.
#[verifier::rlimit(60)]
#[verifier::spinoff_prover]
fn interleave(
    scene: &PlanScene<'_>,
    base: &Vec<UnitRow>,
    first_row: usize,
    edits: &Vec<LineEdit>,
) -> (rows: Vec<UnitRow>)
    requires
        scene.wf(),
        rows_fit(*scene, base@),
        edits_fit(*scene, edits@),
        first_row + base@.len() <= scene.after_count(),
    ensures
        rows_fit(*scene, rows@),
        edits_in_rows(edits@, rows@),
        forall|k: int|
            0 <= k < base@.len() && !claims_after(edits@, (first_row + k + 1) as usize)
                ==> rows@.contains(#[trigger] base@[k]),
        forall|k: int|
            0 <= k < rows@.len() ==> (#[trigger] rows@[k]) is Edit || base@.contains(rows@[k]),
        forall|claim: Claim| #[trigger]
            rows_tally(rows@, claim) == woven_claims(base@, first_row as int, edits@, claim),
{
    proof {
        scene.pair.after.source.lemma_line_count();
    }
    let claimed = claimed_lines(edits);
    let mut rows: Vec<UnitRow> = Vec::new();
    proof {
        assert forall|claim: Claim| #[trigger]
            woven_to(base@, first_row as int, edits@, rows@, 0, 0, claim) by {
            reveal(woven_to);
        }
    }
    let mut next: usize = 0;
    let mut index: usize = 0;
    while index < base.len()
        invariant
            scene.after_count() < usize::MAX,
            rows_fit(*scene, base@),
            edits_fit(*scene, edits@),
            first_row + base@.len() <= scene.after_count(),
            ascending(claimed@),
            forall|line: usize| #[trigger] claimed@.contains(line) <==> claims_after(edits@, line),
            index <= base@.len(),
            next <= edits@.len(),
            rows_fit(*scene, rows@),
            edits_in_rows(edits@.take(next as int), rows@),
            forall|k: int|
                0 <= k < index && !claims_after(edits@, (first_row + k + 1) as usize)
                    ==> rows@.contains(#[trigger] base@[k]),
            forall|k: int|
                0 <= k < rows@.len() ==> (#[trigger] rows@[k]) is Edit || base@.contains(rows@[k]),
            forall|claim: Claim| #[trigger]
                woven_to(
                    base@,
                    first_row as int,
                    edits@,
                    rows@,
                    next as int,
                    index as int,
                    claim,
                ),
        decreases base@.len() - index,
    {
        let line = first_row + index + 1;
        while next < edits.len() && edits[next].order() < line
            invariant
                rows_fit(*scene, base@),
                edits_fit(*scene, edits@),
                next <= edits@.len(),
                rows_fit(*scene, rows@),
                edits_in_rows(edits@.take(next as int), rows@),
                forall|k: int|
                    0 <= k < index && !claims_after(edits@, (first_row + k + 1) as usize)
                        ==> rows@.contains(#[trigger] base@[k]),
                forall|k: int|
                    0 <= k < rows@.len() ==> (#[trigger] rows@[k]) is Edit || base@.contains(
                        rows@[k],
                    ),
                index <= base@.len(),
                forall|claim: Claim| #[trigger]
                    woven_to(
                        base@,
                        first_row as int,
                        edits@,
                        rows@,
                        next as int,
                        index as int,
                        claim,
                    ),
            decreases edits@.len() - next,
        {
            let ghost earlier = rows@;
            rows.push(UnitRow::Edit(edits[next]));
            proof {
                lemma_rows_push(earlier, UnitRow::Edit(edits@[next as int]));
                assert(edits@.take(next + 1) =~= edits@.take(next as int).push(
                    edits@[next as int],
                ));
                assert forall|claim: Claim| #[trigger]
                    woven_to(
                        base@,
                        first_row as int,
                        edits@,
                        rows@,
                        next + 1,
                        index as int,
                        claim,
                    ) by {
                    assert(woven_to(
                        base@,
                        first_row as int,
                        edits@,
                        earlier,
                        next as int,
                        index as int,
                        claim,
                    ));
                    lemma_woven(
                        base@,
                        first_row as int,
                        edits@,
                        earlier,
                        next as int,
                        index as int,
                        claim,
                    );
                }
            }
            next += 1;
        }
        let ghost earlier = rows@;
        if !holds(&claimed, line) {
            rows.push(base[index]);
            proof {
                lemma_rows_push(earlier, base@[index as int]);
            }
        }
        proof {
            assert(claimed@.contains(line) <==> claims_after(edits@, line));
            assert forall|claim: Claim| #[trigger]
                woven_to(
                    base@,
                    first_row as int,
                    edits@,
                    rows@,
                    next as int,
                    index + 1,
                    claim,
                ) by {
                assert(woven_to(
                    base@,
                    first_row as int,
                    edits@,
                    earlier,
                    next as int,
                    index as int,
                    claim,
                ));
                lemma_woven(
                    base@,
                    first_row as int,
                    edits@,
                    earlier,
                    next as int,
                    index as int,
                    claim,
                );
            }
        }
        index += 1;
    }
    while next < edits.len()
        invariant
            rows_fit(*scene, base@),
            edits_fit(*scene, edits@),
            next <= edits@.len(),
            rows_fit(*scene, rows@),
            edits_in_rows(edits@.take(next as int), rows@),
            forall|k: int|
                0 <= k < base@.len() && !claims_after(edits@, (first_row + k + 1) as usize)
                    ==> rows@.contains(#[trigger] base@[k]),
            forall|k: int|
                0 <= k < rows@.len() ==> (#[trigger] rows@[k]) is Edit || base@.contains(rows@[k]),
            forall|claim: Claim| #[trigger]
                woven_to(
                    base@,
                    first_row as int,
                    edits@,
                    rows@,
                    next as int,
                    base@.len() as int,
                    claim,
                ),
        decreases edits@.len() - next,
    {
        let ghost earlier = rows@;
        rows.push(UnitRow::Edit(edits[next]));
        proof {
            lemma_rows_push(earlier, UnitRow::Edit(edits@[next as int]));
            assert(edits@.take(next + 1) =~= edits@.take(next as int).push(edits@[next as int]));
            assert forall|claim: Claim| #[trigger]
                woven_to(
                    base@,
                    first_row as int,
                    edits@,
                    rows@,
                    next + 1,
                    base@.len() as int,
                    claim,
                ) by {
                assert(woven_to(
                    base@,
                    first_row as int,
                    edits@,
                    earlier,
                    next as int,
                    base@.len() as int,
                    claim,
                ));
                lemma_woven(
                    base@,
                    first_row as int,
                    edits@,
                    earlier,
                    next as int,
                    base@.len() as int,
                    claim,
                );
            }
        }
        next += 1;
    }
    assert(edits@.take(next as int) =~= edits@);
    proof {
        assert forall|claim: Claim| #[trigger]
            rows_tally(rows@, claim) == woven_claims(
                base@,
                first_row as int,
                edits@,
                claim,
            ) by {
            assert(woven_to(
                base@,
                first_row as int,
                edits@,
                rows@,
                next as int,
                base@.len() as int,
                claim,
            ));
            reveal(woven_to);
        }
    }
    rows
}

/// One more row keeps the others.
proof fn lemma_rows_push(rows: Seq<UnitRow>, row: UnitRow)
    ensures
        forall|other: UnitRow|
            rows.contains(other) || other == row ==> #[trigger] rows.push(row).contains(other),
{
    assert forall|other: UnitRow|
        rows.contains(other) || other == row implies #[trigger] rows.push(row).contains(other) by {
        if rows.contains(other) {
            let k = choose|k: int| 0 <= k < rows.len() && rows[k] == other;
            assert(rows.push(row)[k] == other);
        } else {
            assert(rows.push(row)[rows.len() as int] == other);
        }
    }
}

/// A row that only its layout separates from the other revision.
pub fn plan_reflow(scene: &PlanScene<'_>, unit: &MatchedUnit) -> (excerpts: Vec<Excerpt>)
    requires
        scene.wf(),
        scene.unit_fits(*unit),
    ensures
        excerpts_fit(*scene, excerpts@),
        reflow_shown(*scene, *unit, excerpts@),
{
    let before = zero_based_lines(&scene.pair.before, unit.before);
    let after = zero_based_lines(&scene.pair.after, unit.after);
    let rows = reflow_rows(scene, before, after);
    let marks = RowMarks::nothing();
    let excerpts = select_review_excerpts(scene, unit.after, &rows, &marks);
    proof {
        assert forall|row: int|
            after.has(row) && !row_linked(scene.graph.source.lines@,
                before,
                after,
                row,
            ) implies #[trigger] row_shown_somewhere(
            excerpts@,
            UnitRow::Reflow((row + 1) as usize),
        ) by {
            let k = row - after.start;
            assert(rows@[k] == UnitRow::Reflow((row + 1) as usize));
        }
        scene.pair.after.source.lemma_line_count();
        assert forall|claim: Claim| #[trigger]
            excerpts_tally(excerpts@, claim) == reflow_claims(*scene, before, after, claim) by {
            lemma_reflow_claims(*scene, before, after, rows@, claim);
        }
    }
    excerpts
}

/// Every current row of the unit that is not unchanged is shown as reflow, once, and nothing else
/// is marked.
pub open spec fn reflow_shown(
    scene: PlanScene<'_>,
    unit: MatchedUnit,
    excerpts: Seq<Excerpt>,
) -> bool {
    let before = row_span(scene.pair.before, unit.before as int);
    let after = row_span(scene.pair.after, unit.after as int);
    &&& forall|row: int|
        after.has(row) && !row_linked(
            scene.graph.source.lines@,
            before,
            after,
            row,
        ) ==> #[trigger] row_shown_somewhere(excerpts, UnitRow::Reflow((row + 1) as usize))
    &&& forall|claim: Claim| #[trigger]
        excerpts_tally(excerpts, claim) == reflow_claims(scene, before, after, claim)
}

/// How often rows whose layout alone changed make the claim: each of them reflows once.
pub open spec fn reflow_claims(
    scene: PlanScene<'_>,
    before: Span,
    after: Span,
    claim: Claim,
) -> nat {
    match claim {
        Claim::Reflowed(line) => if after.has(line - 1) && !row_linked(
            scene.graph.source.lines@,
            before,
            after,
            line - 1,
        ) {
            1
        } else {
            0
        },
        _ => 0,
    }
}

/// Rows whose layout alone changed reflow each once, and do nothing else.
proof fn lemma_reflow_claims(
    scene: PlanScene<'_>,
    before: Span,
    after: Span,
    rows: Seq<UnitRow>,
    claim: Claim,
)
    requires
        is_reflow(scene, before, after, rows),
        after.start <= after.end < usize::MAX,
    ensures
        rows_tally(rows, claim) == reflow_claims(scene, before, after, claim),
{
    let weight = row_weight(rows, claim);
    match claim {
        Claim::Reflowed(line) => {
            if after.has(line - 1) {
                let at = line - 1 - after.start;
                assert forall|k: int| 0 <= k < rows.len() && k != at implies #[trigger] weight(k)
                    == 0 by {
                    assert(rows[k] == rows[k]);
                }
                lemma_run_single(weight, 0, rows.len() as int, at);
                assert(rows[at] == rows[at]);
            } else {
                assert forall|k: int| 0 <= k < rows.len() implies #[trigger] weight(k) == 0 by {
                    assert(rows[k] == rows[k]);
                }
                lemma_run_nothing(weight, 0, rows.len() as int);
            }
        },
        _ => {
            assert forall|k: int| 0 <= k < rows.len() implies #[trigger] weight(k) == 0 by {
                assert(rows[k] == rows[k]);
            }
            lemma_run_nothing(weight, 0, rows.len() as int);
        },
    }
}

/// Every edit is shown.
pub open spec fn edits_shown(edits: Seq<LineEdit>, excerpts: Seq<Excerpt>) -> bool {
    forall|k: int|
        0 <= k < edits.len() ==> row_shown_somewhere(
            excerpts,
            UnitRow::Edit(#[trigger] edits[k]),
        )
}

/// Rows of a unit whose payload stayed but whose comments changed.
#[verifier::rlimit(60)]
#[verifier::spinoff_prover]
pub fn plan_reflow_with_comments(scene: &PlanScene<'_>, unit: &MatchedUnit, edits: Vec<LineEdit>) -> (
    excerpts: Vec<Excerpt>)
    requires
        scene.wf(),
        scene.unit_fits(*unit),
        edits_fit(*scene, edits@),
        edits_ascend(edits@),
    ensures
        excerpts_fit(*scene, excerpts@),
        edits_shown(edits@, excerpts@),
        reflow_woven(*scene, *unit, edits@, excerpts@),
{
    let before = zero_based_lines(&scene.pair.before, unit.before);
    let after = zero_based_lines(&scene.pair.after, unit.after);
    let claimed = claimed_lines(&edits);
    let comments = comment_lines(&scene.pair.before, unit.before);
    let links = scene.graph.source.line_links_in(before, after);
    proof {
        scene.pair.before.source.lemma_line_count();
        scene.pair.after.source.lemma_line_count();
        crate::plan::facts::lemma_selected(scene.graph.source.lines@, before, after);
        let pred = |link: LineLink| link_in(link, before, after);
        scene.graph.source.lines@.filter_lemma(pred);
        assert forall|k: int|
            0 <= k < scene.graph.source.lines@.len() && link_in(
                #[trigger] scene.graph.source.lines@[k],
                before,
                after,
            ) implies links@.contains(scene.graph.source.lines@[k]) by {
            assert(pred(scene.graph.source.lines@[k]));
        }
    }
    let mut base: Vec<UnitRow> = Vec::new();
    let mut at: usize = 0;
    let mut row = after.start;
    while row < after.end
        invariant
            scene.wf(),
            scene.before_count() < usize::MAX,
            ascending(claimed@),
            ascending(comments@),
            before.end <= scene.before_count(),
            after.start <= row <= after.end <= scene.after_count() < usize::MAX,
            at <= links@.len(),
            forall|k: int|
                0 <= k < links@.len() ==> link_in(#[trigger] links@[k], before, after),
            base@.len() == row - after.start,
            rows_fit(*scene, base@),
            rows_ascend(links@),
            forall|k: int| 0 <= k < at ==> (#[trigger] links@[k]).after < row,
            forall|k: int|
                0 <= k < scene.graph.source.lines@.len() && link_in(
                    #[trigger] scene.graph.source.lines@[k],
                    before,
                    after,
                ) ==> links@.contains(scene.graph.source.lines@[k]),
            forall|k: int|
                0 <= k < links@.len() ==> scene.graph.source.lines@.contains(#[trigger] links@[k]),
            before == row_span(scene.pair.before, unit.before as int),
            after == row_span(scene.pair.after, unit.after as int),
            forall|line: usize| #[trigger]
                comments@.contains(line) <==> on_comment(
                    scene.pair.before,
                    unit.before as int,
                    scene.pair.before.nodes@[unit.before as int].subtree_end as int,
                    line,
                ),
            forall|line: usize| #[trigger] claimed@.contains(line) <==> claims_after(edits@, line),
            forall|k: int|
                0 <= k < base@.len() ==> (#[trigger] base@[k]) == comment_reflow_row(
                    *scene,
                    *unit,
                    edits@,
                    after.start + k,
                ),
        decreases after.end - row,
    {
        while at < links.len() && links[at].after < row
            invariant
                at <= links@.len(),
                forall|k: int| 0 <= k < at ==> (#[trigger] links@[k]).after < row,
            decreases links@.len() - at,
        {
            at += 1;
        }
        let mut exact: bool = false;
        if at < links.len() && links[at].after == row {
            assert(link_in(links@[at as int], before, after));
            exact = !holds(&comments, links[at].before + 1) && !holds(&claimed, row + 1);
        }
        proof {
            lemma_row_clean(*scene, *unit, links@, at as int, row as int);
        }
        base.push(
            if exact {
                UnitRow::Context(row + 1)
            } else {
                UnitRow::Reflow(row + 1)
            },
        );
        row += 1;
    }
    let rows = interleave(scene, &base, after.start, &edits);
    let marks = RowMarks::nothing();
    let excerpts = select_review_excerpts(scene, unit.after, &rows, &marks);
    proof {
        lemma_edits_shown(edits@, rows@, excerpts@);
        assert(claims_woven(base@, after.start as int, edits@, excerpts@)) by {
            reveal(claims_woven);
        }
    }
    excerpts
}

/// The current row is linked to an old row of the unit that carries no comment of it.
pub open spec fn row_clean(scene: PlanScene<'_>, unit: MatchedUnit, row: int) -> bool {
    let before = row_span(scene.pair.before, unit.before as int);
    let after = row_span(scene.pair.after, unit.after as int);
    let lines = scene.graph.source.lines@;
    exists|k: int|
        0 <= k < lines.len() && link_in(#[trigger] lines[k], before, after) && lines[k].after == row
            && !on_comment(
            scene.pair.before,
            unit.before as int,
            scene.pair.before.nodes@[unit.before as int].subtree_end as int,
            (lines[k].before + 1) as usize,
        )
}

/// A row of a unit whose comments alone changed: unchanged where it is linked to an old row that
/// carries no comment and no edit claims it, and reflowed elsewhere.
pub open spec fn comment_reflow_row(
    scene: PlanScene<'_>,
    unit: MatchedUnit,
    edits: Seq<LineEdit>,
    row: int,
) -> UnitRow {
    if row_clean(scene, unit, row) && !claims_after(edits, (row + 1) as usize) {
        UnitRow::Context((row + 1) as usize)
    } else {
        UnitRow::Reflow((row + 1) as usize)
    }
}

/// A row is clean exactly where the link at its place leads to a line without a comment.
proof fn lemma_row_clean(
    scene: PlanScene<'_>,
    unit: MatchedUnit,
    links: Seq<LineLink>,
    at: int,
    row: int,
)
    requires
        0 <= at <= links.len(),
        rows_ascend(links),
        forall|k: int| 0 <= k < at ==> (#[trigger] links[k]).after < row,
        at < links.len() ==> links[at].after >= row,
        forall|k: int|
            0 <= k < scene.graph.source.lines@.len() && link_in(
                #[trigger] scene.graph.source.lines@[k],
                row_span(scene.pair.before, unit.before as int),
                row_span(scene.pair.after, unit.after as int),
            ) ==> links.contains(scene.graph.source.lines@[k]),
        forall|k: int|
            0 <= k < links.len() ==> scene.graph.source.lines@.contains(#[trigger] links[k])
                && link_in(
                links[k],
                row_span(scene.pair.before, unit.before as int),
                row_span(scene.pair.after, unit.after as int),
            ),
    ensures
        row_clean(scene, unit, row) <==> at < links.len() && links[at].after == row && !on_comment(
            scene.pair.before,
            unit.before as int,
            scene.pair.before.nodes@[unit.before as int].subtree_end as int,
            (links[at].before + 1) as usize,
        ),
{
    let before = row_span(scene.pair.before, unit.before as int);
    let after = row_span(scene.pair.after, unit.after as int);
    let lines = scene.graph.source.lines@;
    if at < links.len() {
        assert(lines.contains(links[at]));
        let k = choose|k: int| 0 <= k < lines.len() && lines[k] == links[at];
        assert(link_in(lines[k], before, after));
    }
    if row_clean(scene, unit, row) {
        let k = choose|k: int|
            0 <= k < lines.len() && link_in(#[trigger] lines[k], before, after) && lines[k].after
                == row && !on_comment(
                scene.pair.before,
                unit.before as int,
                scene.pair.before.nodes@[unit.before as int].subtree_end as int,
                (lines[k].before + 1) as usize,
            );
        assert(links.contains(lines[k]));
        let i = choose|i: int| 0 <= i < links.len() && links[i] == lines[k];
        assert(i >= at);
        if i > at {
            assert(links[at].after < links[i].after);
        }
    }
}

/// Beside the edits, rows of the unit are unchanged or reflow, and each is shown once.
pub open spec fn reflow_woven(
    scene: PlanScene<'_>,
    unit: MatchedUnit,
    edits: Seq<LineEdit>,
    excerpts: Seq<Excerpt>,
) -> bool {
    let after = row_span(scene.pair.after, unit.after as int);
    exists|base: Seq<UnitRow>| #[trigger]
        claims_woven(base, after.start as int, edits, excerpts) && base.len() == after.end
            - after.start && rows_numbered(base, after.start as int) && forall|k: int|
            0 <= k < base.len() ==> (#[trigger] base[k]) == comment_reflow_row(
                scene,
                unit,
                edits,
                after.start + k,
            )
}

/// What a unit whose comments alone changed reflows: every row that is not linked to an old row
/// without a comment and that no edit claims, once.
pub proof fn lemma_comment_reflow(
    scene: PlanScene<'_>,
    unit: MatchedUnit,
    edits: Seq<LineEdit>,
    excerpts: Seq<Excerpt>,
    line: usize,
)
    requires
        reflow_woven(scene, unit, edits, excerpts),
        row_span(scene.pair.after, unit.after as int).end < usize::MAX,
    ensures
        excerpts_tally(excerpts, Claim::Reflowed(line)) == if row_span(
            scene.pair.after,
            unit.after as int,
        ).has(line - 1) && !row_clean(scene, unit, line - 1) && !claims_after(edits, line) {
            1nat
        } else {
            0nat
        },
        claims_after(edits, line) ==> excerpts_tally(excerpts, Claim::Added(line)) > 0,
        excerpts_tally(excerpts, Claim::Moved(line)) == 0,
{
    reveal(claims_woven);
    let after = row_span(scene.pair.after, unit.after as int);
    let base = choose|base: Seq<UnitRow>| #[trigger]
        claims_woven(base, after.start as int, edits, excerpts) && base.len() == after.end
            - after.start && rows_numbered(base, after.start as int) && forall|k: int|
            0 <= k < base.len() ==> (#[trigger] base[k]) == comment_reflow_row(
                scene,
                unit,
                edits,
                after.start + k,
            );
    lemma_woven_moves_nothing(base, after.start as int, edits, excerpts, line);
    let claim = Claim::Reflowed(line);
    let own = row_weight(edit_rows(edits), claim);
    lemma_run_nothing(own, 0, edits.len() as int);
    let weight = kept_weight(base, after.start as int, edits, claim);
    if after.has(line - 1) {
        let at = line - 1 - after.start;
        assert forall|k: int| 0 <= k < base.len() && k != at implies #[trigger] weight(k) == 0 by {
            assert(base[k] == base[k]);
        }
        lemma_run_single(weight, 0, base.len() as int, at);
        assert(base[at] == base[at]);
    } else {
        assert forall|k: int| 0 <= k < base.len() implies #[trigger] weight(k) == 0 by {
            assert(base[k] == base[k]);
        }
        lemma_run_nothing(weight, 0, base.len() as int);
    }
    if claims_after(edits, line) {
        let k = choose|k: int| 0 <= k < edits.len() && (#[trigger] edits[k]).after == Some(line);
        let added = row_weight(edit_rows(edits), Claim::Added(line));
        assert(added(k) == 1);
        lemma_run_holds(added, 0, edits.len() as int, k);
    }
    assert(excerpts_tally(excerpts, claim) == woven_claims(base, after.start as int, edits, claim));
}

/// Edits that are rows are shown where rows are.
proof fn lemma_edits_shown(edits: Seq<LineEdit>, rows: Seq<UnitRow>, excerpts: Seq<Excerpt>)
    requires
        edits_in_rows(edits, rows),
        forall|k: int|
            0 <= k < rows.len() && !((#[trigger] rows[k]) is Context) ==> row_shown_somewhere(
                excerpts,
                rows[k],
            ),
    ensures
        edits_shown(edits, excerpts),
{
    assert forall|k: int| 0 <= k < edits.len() implies row_shown_somewhere(
        excerpts,
        UnitRow::Edit(#[trigger] edits[k]),
    ) by {
        assert(rows.contains(UnitRow::Edit(edits[k])));
        let i = choose|i: int| 0 <= i < rows.len() && rows[i] == UnitRow::Edit(edits[k]);
        assert(!(rows[i] is Context));
    }
}

/// Every listed node exists.
pub open spec fn nodes_exist(nodes: Seq<NodeId>, count: int) -> bool {
    forall|k: int| 0 <= k < nodes.len() ==> (#[trigger] nodes[k]) < count
}

/// Add leaves whose exact partner stands elsewhere. A leaf that only changed its wrapping stays.
fn add_displaced(
    links: &[LeafLink],
    removed: bool,
    changed: &mut Vec<NodeId>,
    Ghost(count): Ghost<int>,
)
    requires
        forall|k: int|
            0 <= k < links@.len() ==> (if removed {
                (#[trigger] links@[k]).before
            } else {
                links@[k].after
            }) < count,
        ascending(old(changed)@),
        nodes_exist(old(changed)@, count),
    ensures
        ascending(final(changed)@),
        nodes_exist(final(changed)@, count),
        forall|id: NodeId| #[trigger]
            final(changed)@.contains(id) <==> old(changed)@.contains(id) || is_displaced(
                links@,
                removed,
                id,
            ),
{
    let mut index: usize = 0;
    while index < links.len()
        invariant
            forall|k: int|
                0 <= k < links@.len() ==> (if removed {
                    (#[trigger] links@[k]).before
                } else {
                    links@[k].after
                }) < count,
            index <= links@.len(),
            ascending(changed@),
            nodes_exist(changed@, count),
            forall|id: NodeId| #[trigger]
                changed@.contains(id) <==> old(changed)@.contains(id) || is_displaced(
                    links@.take(index as int),
                    removed,
                    id,
                ),
        decreases links@.len() - index,
    {
        let link = links[index];
        let ghost earlier = changed@;
        assert(links@[index as int] == link);
        if matches!(link.relation, LeafRelation::Exact) && matches!(
            link.placement,
            Placement::Reordered
        ) {
            let id = if removed {
                link.before
            } else {
                link.after
            };
            add_node(changed, id, Ghost(count));
        }
        proof {
            let shorter = links@.take(index as int);
            let longer = links@.take(index + 1);
            assert(longer[index as int] == link);
            assert forall|id: NodeId| #[trigger] changed@.contains(id) <==> old(changed)@.contains(
                id,
            ) || is_displaced(longer, removed, id) by {
                assert(earlier.contains(id) <==> old(changed)@.contains(id) || is_displaced(
                    shorter,
                    removed,
                    id,
                ));
                if is_displaced(longer, removed, id) {
                    let k = choose|k: int|
                        0 <= k < longer.len() && displaces(#[trigger] longer[k], removed, id);
                    if k < index {
                        assert(displaces(shorter[k], removed, id));
                    }
                }
                if is_displaced(shorter, removed, id) {
                    let k = choose|k: int|
                        0 <= k < shorter.len() && displaces(#[trigger] shorter[k], removed, id);
                    assert(displaces(longer[k], removed, id));
                }
                if displaces(link, removed, id) {
                    assert(displaces(longer[index as int], removed, id));
                }
            }
        }
        index += 1;
    }
    assert(links@.take(index as int) =~= links@);
}

/// The link joins the leaf to an equal one that stands elsewhere.
pub open spec fn displaces(link: LeafLink, removed: bool, id: NodeId) -> bool {
    link.relation == LeafRelation::Exact && link.placement == Placement::Reordered && id == (
    if removed {
        link.before
    } else {
        link.after
    })
}

/// Some link joins the leaf to an equal one that stands elsewhere.
pub open spec fn is_displaced(links: Seq<LeafLink>, removed: bool, id: NodeId) -> bool {
    exists|k: int| 0 <= k < links.len() && displaces(#[trigger] links[k], removed, id)
}

/// The link joins a subtree that holds the content leaf to one that stands elsewhere.
pub open spec fn reorders(tree: SyntaxTree, link: NodeLink, removed: bool, id: NodeId) -> bool {
    link.placement == Placement::Reordered && tree.in_subtree(
        (if removed {
            link.before
        } else {
            link.after
        }) as int,
        id as int,
    ) && tree.nodes@[id as int].is_content_leaf()
}

/// Some link joins a subtree that holds the content leaf to one that stands elsewhere.
pub open spec fn is_reordered(
    tree: SyntaxTree,
    links: Seq<NodeLink>,
    removed: bool,
    id: NodeId,
) -> bool {
    exists|k: int| 0 <= k < links.len() && reorders(tree, #[trigger] links[k], removed, id)
}

/// Add the leaves below reordered subtrees.
fn add_reordered(tree: &SyntaxTree, links: &[NodeLink], removed: bool, changed: &mut Vec<NodeId>)
    requires
        tree.wf(),
        forall|k: int|
            0 <= k < links@.len() ==> (if removed {
                (#[trigger] links@[k]).before
            } else {
                links@[k].after
            }) < tree.nodes@.len(),
        ascending(old(changed)@),
        nodes_exist(old(changed)@, tree.nodes@.len() as int),
    ensures
        ascending(final(changed)@),
        nodes_exist(final(changed)@, tree.nodes@.len() as int),
        forall|id: NodeId| #[trigger]
            final(changed)@.contains(id) <==> old(changed)@.contains(id) || is_reordered(
                *tree,
                links@,
                removed,
                id,
            ),
{
    let mut index: usize = 0;
    while index < links.len()
        invariant
            tree.wf(),
            forall|k: int|
                0 <= k < links@.len() ==> (if removed {
                    (#[trigger] links@[k]).before
                } else {
                    links@[k].after
                }) < tree.nodes@.len(),
            index <= links@.len(),
            ascending(changed@),
            nodes_exist(changed@, tree.nodes@.len() as int),
            forall|id: NodeId| #[trigger]
                changed@.contains(id) <==> old(changed)@.contains(id) || is_reordered(
                    *tree,
                    links@.take(index as int),
                    removed,
                    id,
                ),
        decreases links@.len() - index,
    {
        let ghost earlier = changed@;
        let link = links[index];
        assert(links@[index as int] == link);
        if matches!(link.placement, Placement::Reordered) {
            let id = if removed {
                link.before
            } else {
                link.after
            };
            let leaves = tree.descendant_leaves(id);
            add_nodes(tree, changed, &leaves, id);
        }
        proof {
            let shorter = links@.take(index as int);
            let longer = links@.take(index + 1);
            assert(longer[index as int] == link);
            assert forall|id: NodeId| #[trigger] changed@.contains(id) <==> old(changed)@.contains(
                id,
            ) || is_reordered(*tree, longer, removed, id) by {
                assert(earlier.contains(id) <==> old(changed)@.contains(id) || is_reordered(
                    *tree,
                    shorter,
                    removed,
                    id,
                ));
                if is_reordered(*tree, longer, removed, id) {
                    let k = choose|k: int|
                        0 <= k < longer.len() && reorders(*tree, #[trigger] longer[k], removed, id);
                    if k < index {
                        assert(reorders(*tree, shorter[k], removed, id));
                    }
                }
                if is_reordered(*tree, shorter, removed, id) {
                    let k = choose|k: int|
                        0 <= k < shorter.len() && reorders(
                            *tree,
                            #[trigger] shorter[k],
                            removed,
                            id,
                        );
                    assert(reorders(*tree, longer[k], removed, id));
                }
                if reorders(*tree, link, removed, id) {
                    assert(reorders(*tree, longer[index as int], removed, id));
                }
            }
        }
        index += 1;
    }
    assert(links@.take(index as int) =~= links@);
}

/// Every payload leaf below the node without a partner is listed.
pub open spec fn lists_unpartnered(
    tree: SyntaxTree,
    partners: Seq<Option<usize>>,
    root: int,
    end: int,
    nodes: Seq<NodeId>,
) -> bool {
    forall|id: int|
        root <= id < end && is_significant(#[trigger] tree.nodes@[id]) && partners[id] is None
            ==> nodes.contains(id as usize)
}

/// The payload leaf lies below the node and has no partner.
pub open spec fn is_unpartnered(
    tree: SyntaxTree,
    partners: Seq<Option<usize>>,
    root: int,
    id: NodeId,
) -> bool {
    tree.in_subtree(root, id as int) && is_significant(tree.nodes@[id as int])
        && partners[id as int] is None
}

/// Add payload leaves below a node that have no partner.
fn add_unlinked(
    tree: &SyntaxTree,
    partners: &Vec<Option<usize>>,
    root: NodeId,
    changed: &mut Vec<NodeId>,
)
    requires
        tree.wf(),
        tree.has_node(root as int),
        partners@.len() == tree.nodes@.len(),
        ascending(old(changed)@),
        nodes_exist(old(changed)@, tree.nodes@.len() as int),
    ensures
        ascending(final(changed)@),
        nodes_exist(final(changed)@, tree.nodes@.len() as int),
        lists_unpartnered(
            *tree,
            partners@,
            root as int,
            tree.nodes@[root as int].subtree_end as int,
            final(changed)@,
        ),
        forall|id: NodeId| #[trigger]
            final(changed)@.contains(id) ==> old(changed)@.contains(id) || is_unpartnered(
                *tree,
                partners@,
                root as int,
                id,
            ),
        forall|id: NodeId|
            old(changed)@.contains(id) ==> #[trigger] final(changed)@.contains(id),
{
    proof {
        assert(crate::syntax::node_fits(
            tree.nodes@[root as int],
            root as int,
            tree.nodes@.len() as int,
            tree.source.data().len() as int,
        ));
    }
    let end = tree.nodes[root].subtree_end;
    let mut id = root;
    while id < end
        invariant
            tree.wf(),
            partners@.len() == tree.nodes@.len(),
            root <= id <= end <= tree.nodes@.len(),
            ascending(changed@),
            nodes_exist(changed@, tree.nodes@.len() as int),
            lists_unpartnered(*tree, partners@, root as int, id as int, changed@),
            end == tree.nodes@[root as int].subtree_end,
            forall|other: NodeId| #[trigger]
                changed@.contains(other) ==> old(changed)@.contains(other) || is_unpartnered(
                    *tree,
                    partners@,
                    root as int,
                    other,
                ),
            forall|other: NodeId|
                old(changed)@.contains(other) ==> #[trigger] changed@.contains(other),
        decreases end - id,
    {
        if partners[id].is_none() && significant_leaf(&tree.nodes[id]) {
            add_node(changed, id, Ghost(tree.nodes@.len() as int));
        }
        id += 1;
    }
}

/// The bytes are those of a listed payload leaf that has no partner or is not kept out.
pub open spec fn is_mark_of(
    tree: SyntaxTree,
    nodes: Seq<NodeId>,
    kept_out: Seq<NodeId>,
    partners: Seq<Option<usize>>,
    mark: Span,
) -> bool {
    exists|k: int|
        0 <= k < nodes.len() && tree.nodes@[(#[trigger] nodes[k]) as int].bytes == mark && (
        !kept_out.contains(nodes[k]) || partners[nodes[k] as int] is None) && is_significant(
            tree.nodes@[nodes[k] as int],
        )
}

/// Bytes of listed payload leaves, except those with a partner that are kept out.
fn leaf_marks(
    tree: &SyntaxTree,
    changed: &Vec<NodeId>,
    kept_out: &Vec<NodeId>,
    partners: &Vec<Option<usize>>,
) -> (marks: Vec<Span>)
    requires
        nodes_exist(changed@, tree.nodes@.len() as int),
        ascending(kept_out@),
        partners@.len() == tree.nodes@.len(),
    ensures
        forall|k: int| 0 <= k < marks@.len() ==> marks_leaf(*tree, #[trigger] marks@[k]),
        forall|k: int|
            0 <= k < changed@.len() && (!kept_out@.contains(#[trigger] changed@[k])
                || partners@[changed@[k] as int] is None) && is_significant(
                tree.nodes@[changed@[k] as int],
            ) ==> marks@.contains(tree.nodes@[changed@[k] as int].bytes),
        forall|mark: Span| #[trigger]
            marks@.contains(mark) ==> is_mark_of(*tree, changed@, kept_out@, partners@, mark),
{
    let mut marks: Vec<Span> = Vec::new();
    let mut index: usize = 0;
    while index < changed.len()
        invariant
            nodes_exist(changed@, tree.nodes@.len() as int),
            ascending(kept_out@),
            partners@.len() == tree.nodes@.len(),
            index <= changed@.len(),
            forall|k: int| 0 <= k < marks@.len() ==> marks_leaf(*tree, #[trigger] marks@[k]),
            forall|k: int|
                0 <= k < index && (!kept_out@.contains(#[trigger] changed@[k])
                    || partners@[changed@[k] as int] is None) && is_significant(
                    tree.nodes@[changed@[k] as int],
                ) ==> marks@.contains(tree.nodes@[changed@[k] as int].bytes),
            forall|mark: Span| #[trigger]
                marks@.contains(mark) ==> is_mark_of(*tree, changed@, kept_out@, partners@, mark),
        decreases changed@.len() - index,
    {
        let leaf = changed[index];
        let ghost earlier = marks@;
        assert(changed@[index as int] < tree.nodes@.len());
        let node = &tree.nodes[leaf];
        if (partners[leaf].is_none() || !holds(kept_out, leaf)) && significant_leaf(node) {
            marks.push(node.bytes);
            assert(is_significant(tree.nodes@[leaf as int]));
            assert(marks@[earlier.len() as int] == tree.nodes@[leaf as int].bytes);
        }
        proof {
            assert forall|mark: Span| #[trigger] marks@.contains(mark) implies is_mark_of(
                *tree,
                changed@,
                kept_out@,
                partners@,
                mark,
            ) by {
                let i = choose|i: int| 0 <= i < marks@.len() && marks@[i] == mark;
                if i < earlier.len() {
                    assert(earlier[i] == mark);
                    assert(earlier.contains(mark));
                } else {
                    assert(changed@[index as int] == leaf);
                }
            }
            assert forall|k: int|
                0 <= k < index + 1 && (!kept_out@.contains(#[trigger] changed@[k])
                    || partners@[changed@[k] as int] is None) && is_significant(
                    tree.nodes@[changed@[k] as int],
                ) implies marks@.contains(tree.nodes@[changed@[k] as int].bytes) by {
                if k < index {
                    let bytes = tree.nodes@[changed@[k] as int].bytes;
                    let i = choose|i: int| 0 <= i < earlier.len() && earlier[i] == bytes;
                    assert(marks@[i] == bytes);
                }
            }
        }
        index += 1;
    }
    marks
}

/// Leaves to mark: those of links that moved, those below reordered subtrees, and payload without a partner, except exact decorations.
#[verifier::rlimit(60)]
#[verifier::spinoff_prover]
fn changed_leaves(
    scene: &PlanScene<'_>,
    unit: &MatchedUnit,
    dependents: &PresentationDependents,
    removed: bool,
) -> (marks: Vec<Span>)
    requires
        scene.wf(),
        scene.unit_fits(*unit),
        dependents.wf(),
    ensures
        forall|k: int|
            0 <= k < marks@.len() ==> marks_leaf(
                if removed {
                    scene.pair.before
                } else {
                    scene.pair.after
                },
                #[trigger] marks@[k],
            ),
        marks_unpartnered(
            if removed {
                scene.pair.before
            } else {
                scene.pair.after
            },
            if removed {
                scene.graph.tree.leaves.before@
            } else {
                scene.graph.tree.leaves.after@
            },
            if removed {
                unit.before as int
            } else {
                unit.after as int
            },
            marks@,
        ),
        forall|mark: Span| #[trigger]
            marks@.contains(mark) <==> is_changed_leaf(*scene, *unit, *dependents, removed, mark),
{
    let tree = if removed {
        &scene.pair.before
    } else {
        &scene.pair.after
    };
    let ghost count = tree.nodes@.len() as int;
    let links = scene.graph.tree.unit_leaf_links(unit);
    let composites = scene.graph.tree.unit_composites(unit);
    proof {
        assert forall|k: int| 0 <= k < links@.len() implies (if removed {
            (#[trigger] links@[k]).before
        } else {
            links@[k].after
        }) < count by {
            assert(links@[k] == scene.graph.tree.leaves.links@[unit.leaf_links.start + k]);
        }
        assert forall|k: int| 0 <= k < composites@.len() implies (if removed {
            (#[trigger] composites@[k]).before
        } else {
            composites@[k].after
        }) < count by {
            assert(composites@[k] == scene.graph.tree.composites@[unit.composites.start + k]);
        }
    }
    let mut changed: Vec<NodeId> = Vec::new();
    add_displaced(links, removed, &mut changed, Ghost(count));
    add_reordered(tree, composites, removed, &mut changed);
    let (partners, root, kept_out) = if removed {
        (&scene.graph.tree.leaves.before, unit.before, &dependents.before)
    } else {
        (&scene.graph.tree.leaves.after, unit.after, &dependents.after)
    };
    add_unlinked(tree, partners, root, &mut changed);
    let marks = leaf_marks(tree, &changed, kept_out, partners);
    proof {
        lemma_unpartnered_marked(*tree, partners@, root as int, changed@, marks@);
        assert forall|id: NodeId| #[trigger] changed@.contains(id) <==> leaf_changed(
            *scene,
            *unit,
            removed,
            id,
        ) by {
            if is_unpartnered(*tree, partners@, root as int, id) {
                assert(is_significant(tree.nodes@[id as int]));
            }
        }
        assert forall|mark: Span| #[trigger] marks@.contains(mark) <==> is_changed_leaf(
            *scene,
            *unit,
            *dependents,
            removed,
            mark,
        ) by {
            if marks@.contains(mark) {
                let k = choose|k: int|
                    0 <= k < changed@.len() && tree.nodes@[(#[trigger] changed@[k]) as int].bytes
                        == mark && (!kept_out@.contains(changed@[k])
                        || partners@[changed@[k] as int] is None) && is_significant(
                        tree.nodes@[changed@[k] as int],
                    );
                assert(changed@.contains(changed@[k]));
                assert(leaf_changed(*scene, *unit, removed, changed@[k]));
            }
            if is_changed_leaf(*scene, *unit, *dependents, removed, mark) {
                let id = choose|id: NodeId| #[trigger]
                    leaf_changed(*scene, *unit, removed, id) && id < tree.nodes@.len()
                        && tree.nodes@[id as int].bytes == mark && (!kept_out@.contains(id)
                        || partners@[id as int] is None) && is_significant(tree.nodes@[id as int]);
                assert(changed@.contains(id));
                let k = choose|k: int| 0 <= k < changed@.len() && changed@[k] == id;
                assert(marks@.contains(tree.nodes@[changed@[k] as int].bytes));
            }
        }
    }
    marks
}

/// The leaf stands elsewhere, lies in a subtree that does, or is payload without a partner.
pub open spec fn leaf_changed(
    scene: PlanScene<'_>,
    unit: MatchedUnit,
    removed: bool,
    id: NodeId,
) -> bool {
    let tree = if removed {
        scene.pair.before
    } else {
        scene.pair.after
    };
    ||| is_displaced(
        scene.graph.tree.leaves.links@.subrange(
            unit.leaf_links.start as int,
            unit.leaf_links.end as int,
        ),
        removed,
        id,
    )
    ||| is_reordered(
        tree,
        scene.graph.tree.composites@.subrange(
            unit.composites.start as int,
            unit.composites.end as int,
        ),
        removed,
        id,
    )
    ||| is_unpartnered(
        tree,
        if removed {
            scene.graph.tree.leaves.before@
        } else {
            scene.graph.tree.leaves.after@
        },
        if removed {
            unit.before as int
        } else {
            unit.after as int
        },
        id,
    )
}

/// The bytes are those of a payload leaf of the unit that changed, and that has no partner or is
/// no exact decoration of what its presentation depends on.
pub open spec fn is_changed_leaf(
    scene: PlanScene<'_>,
    unit: MatchedUnit,
    dependents: PresentationDependents,
    removed: bool,
    mark: Span,
) -> bool {
    let tree = if removed {
        scene.pair.before
    } else {
        scene.pair.after
    };
    let partners = if removed {
        scene.graph.tree.leaves.before@
    } else {
        scene.graph.tree.leaves.after@
    };
    let kept_out = if removed {
        dependents.before@
    } else {
        dependents.after@
    };
    exists|id: NodeId| #[trigger]
        leaf_changed(scene, unit, removed, id) && id < tree.nodes@.len()
            && tree.nodes@[id as int].bytes == mark && (!kept_out.contains(id)
            || partners[id as int] is None) && is_significant(tree.nodes@[id as int])
}

/// Every payload leaf below the node without a partner is marked.
pub open spec fn marks_unpartnered(
    tree: SyntaxTree,
    partners: Seq<Option<usize>>,
    root: int,
    marks: Seq<Span>,
) -> bool {
    forall|id: int|
        tree.in_subtree(root, id) && is_significant(#[trigger] tree.nodes@[id])
            && partners[id] is None ==> marks.contains(tree.nodes@[id].bytes)
}

proof fn lemma_unpartnered_marked(
    tree: SyntaxTree,
    partners: Seq<Option<usize>>,
    root: int,
    nodes: Seq<NodeId>,
    marks: Seq<Span>,
)
    requires
        lists_unpartnered(
            tree,
            partners,
            root,
            tree.nodes@[root].subtree_end as int,
            nodes,
        ),
        forall|k: int|
            0 <= k < nodes.len() && partners[(#[trigger] nodes[k]) as int] is None
                && is_significant(tree.nodes@[nodes[k] as int]) ==> marks.contains(
                tree.nodes@[nodes[k] as int].bytes,
            ),
        tree.nodes@.len() <= usize::MAX,
        0 <= root < tree.nodes@.len(),
        tree.nodes@[root].subtree_end <= tree.nodes@.len(),
    ensures
        marks_unpartnered(tree, partners, root, marks),
{
    assert forall|id: int|
        tree.in_subtree(root, id) && is_significant(#[trigger] tree.nodes@[id])
            && partners[id] is None implies marks.contains(tree.nodes@[id].bytes) by {
        assert(nodes.contains(id as usize));
        let k = choose|k: int| 0 <= k < nodes.len() && nodes[k] == id as usize;
        assert(partners[nodes[k] as int] is None);
    }
}

/// Bytes of the payload leaves below a node that have no partner.
pub fn unpartnered_marks(tree: &SyntaxTree, partners: &Vec<Option<usize>>, root: NodeId) -> (marks:
    Vec<Span>)
    requires
        tree.wf(),
        tree.has_node(root as int),
        partners@.len() == tree.nodes@.len(),
    ensures
        marks_unpartnered(*tree, partners@, root as int, marks@),
        forall|k: int| 0 <= k < marks@.len() ==> marks_leaf(*tree, #[trigger] marks@[k]),
{
    proof {
        assert(crate::syntax::node_fits(
            tree.nodes@[root as int],
            root as int,
            tree.nodes@.len() as int,
            tree.source.data().len() as int,
        ));
    }
    let mut nodes: Vec<NodeId> = Vec::new();
    add_unlinked(tree, partners, root, &mut nodes);
    let kept_out: Vec<NodeId> = Vec::new();
    let marks = leaf_marks(tree, &nodes, &kept_out, partners);
    proof {
        lemma_unpartnered_marked(*tree, partners@, root as int, nodes@, marks@);
    }
    marks
}

/// Some payload leaf below the node without a partner shares a byte with the row.
pub open spec fn row_unpartnered(
    tree: SyntaxTree,
    partners: Seq<Option<usize>>,
    root: int,
    row: int,
) -> bool {
    exists|id: int|
        tree.in_subtree(root, id) && is_significant(#[trigger] tree.nodes@[id])
            && partners[id] is None && crate::correspondence::geometry::spans_meet(
            tree.nodes@[id].bytes,
            tree.source.line_seq()[row].content_bytes,
        )
}

/// The edit takes an old row of the range that marks touch.
pub open spec fn is_touched_row(
    scene: PlanScene<'_>,
    rows: Span,
    marks: Seq<Span>,
    edit: LineEdit,
) -> bool {
    &&& edit.after is None
    &&& edit.before matches Some(line) && rows.has(line - 1) && touched(
        scene.pair.before.source.line_seq()[line - 1].content_bytes,
        marks,
    )
}

/// Add the old rows that marks touch.
pub fn append_touched_rows(
    scene: &PlanScene<'_>,
    edits: &mut Vec<LineEdit>,
    rows: Span,
    marks: &Vec<Span>,
)
    requires
        scene.wf(),
        edits_fit(*scene, old(edits)@),
        rows.start <= rows.end <= scene.before_count(),
    ensures
        edits_fit(*scene, final(edits)@),
        all_listed(old(edits)@, final(edits)@),
        forall|row: int|
            rows.has(row) && touched(
                (#[trigger] scene.pair.before.source.line_seq()[row]).content_bytes,
                marks@,
            ) ==> final(edits)@.contains(
                LineEdit { before: Some((row + 1) as usize), after: None },
            ),
        forall|edit: LineEdit| #[trigger]
            final(edits)@.contains(edit) <==> old(edits)@.contains(edit) || is_touched_row(
                *scene,
                rows,
                marks@,
                edit,
            ),
{
    proof {
        scene.pair.before.source.lemma_line_count();
    }
    let ghost start = edits@;
    let mut row = rows.start;
    while row < rows.end
        invariant
            scene.wf(),
            scene.before_count() < usize::MAX,
            rows.start <= row <= rows.end <= scene.before_count(),
            edits_fit(*scene, edits@),
            start.is_prefix_of(edits@),
            forall|other: int|
                rows.start <= other < row && touched(
                    (#[trigger] scene.pair.before.source.line_seq()[other]).content_bytes,
                    marks@,
                ) ==> edits@.contains(
                    LineEdit { before: Some((other + 1) as usize), after: None },
                ),
            forall|k: int|
                start.len() <= k < edits@.len() ==> is_touched_row(
                    *scene,
                    rows,
                    marks@,
                    #[trigger] edits@[k],
                ),
        decreases rows.end - row,
    {
        let ghost earlier = edits@;
        let content = scene.pair.before.source.lines()[row].content_bytes;
        if touches(content, marks) {
            edits.push(LineEdit { before: Some(row + 1), after: None });
            assert(edits@[earlier.len() as int] == (LineEdit {
                before: Some((row + 1) as usize),
                after: None,
            }));
        }
        proof {
            assert forall|other: int|
                rows.start <= other < row + 1 && touched(
                    (#[trigger] scene.pair.before.source.line_seq()[other]).content_bytes,
                    marks@,
                ) implies edits@.contains(
                LineEdit { before: Some((other + 1) as usize), after: None },
            ) by {
                if other < row {
                    let edit = LineEdit { before: Some((other + 1) as usize), after: None };
                    let k = choose|k: int| 0 <= k < earlier.len() && earlier[k] == edit;
                    assert(edits@[k] == edit);
                }
            }
        }
        row += 1;
    }
    proof {
        assert forall|edit: LineEdit| start.contains(edit) implies #[trigger] edits@.contains(
            edit,
        ) by {
            let k = choose|k: int| 0 <= k < start.len() && start[k] == edit;
            assert(edits@[k] == edit);
        }
        assert forall|edit: LineEdit| #[trigger] edits@.contains(edit) <==> start.contains(edit)
            || is_touched_row(*scene, rows, marks@, edit) by {
            if edits@.contains(edit) {
                let k = choose|k: int| 0 <= k < edits@.len() && edits@[k] == edit;
                if k < start.len() {
                    assert(start[k] == edit);
                }
            }
            if is_touched_row(*scene, rows, marks@, edit) {
                let row = edit.before->0 - 1;
                assert(touched(
                    scene.pair.before.source.line_seq()[row].content_bytes,
                    marks@,
                ));
                assert(edit == (LineEdit { before: Some((row + 1) as usize), after: None }));
            }
        }
    }
}

/// Some edit of the old line is shown.
pub open spec fn old_line_shown(excerpts: Seq<Excerpt>, line: usize) -> bool {
    exists|edit: LineEdit|
        edit.before == Some(line) && #[trigger] row_shown_somewhere(excerpts, UnitRow::Edit(edit))
}

/// The current line is shown with marks, or in an edit.
pub open spec fn current_line_shown(excerpts: Seq<Excerpt>, line: usize) -> bool {
    ||| row_shown_somewhere(excerpts, UnitRow::Marked(line))
    ||| exists|edit: LineEdit|
        edit.after == Some(line) && #[trigger] row_shown_somewhere(excerpts, UnitRow::Edit(edit))
}

/// Every row of the unit that holds payload without a partner is shown as changed.
pub open spec fn payload_rows_shown(
    scene: PlanScene<'_>,
    unit: MatchedUnit,
    excerpts: Seq<Excerpt>,
) -> bool {
    &&& forall|row: int|
        row_span(scene.pair.before, unit.before as int).has(row) && #[trigger] row_unpartnered(
            scene.pair.before,
            scene.graph.tree.leaves.before@,
            unit.before as int,
            row,
        ) ==> old_line_shown(excerpts, (row + 1) as usize)
    &&& forall|row: int|
        row_span(scene.pair.after, unit.after as int).has(row) && #[trigger] row_unpartnered(
            scene.pair.after,
            scene.graph.tree.leaves.after@,
            unit.after as int,
            row,
        ) ==> current_line_shown(excerpts, (row + 1) as usize)
}

/// A comment below the node that the unit links to nothing covers the row.
pub open spec fn comment_unlinked(
    tree: SyntaxTree,
    links: Seq<Option<usize>>,
    root: int,
    unit: MatchedUnit,
    row: int,
) -> bool {
    &&& 0 <= row < tree.source.line_seq().len()
    &&& exists|id: int|
        tree.in_subtree(root, id) && is_comment(#[trigger] tree.nodes@[id]) && !linked_in_unit(
            links[id],
            unit,
        ) && row_span(tree, id).has(row)
}

/// Every row of a comment that was lost or added is shown as changed.
pub open spec fn comments_shown(
    scene: PlanScene<'_>,
    unit: MatchedUnit,
    excerpts: Seq<Excerpt>,
) -> bool {
    &&& forall|row: int| #[trigger]
        comment_unlinked(
            scene.pair.before,
            scene.graph.tree.leaves.before@,
            unit.before as int,
            unit,
            row,
        ) ==> old_line_shown(excerpts, (row + 1) as usize)
    &&& forall|row: int| #[trigger]
        comment_unlinked(
            scene.pair.after,
            scene.graph.tree.leaves.after@,
            unit.after as int,
            unit,
            row,
        ) ==> current_line_shown(excerpts, (row + 1) as usize)
}

/// Edits of all lost and added comments, once shown, show every row of those comments.
pub proof fn lemma_comments_shown(
    scene: PlanScene<'_>,
    unit: MatchedUnit,
    edits: Seq<LineEdit>,
    excerpts: Seq<Excerpt>,
)
    requires
        edits_shown(edits, excerpts),
        lists_removed_comments(scene, unit, edits),
        lists_added_comments(scene, unit, edits),
    ensures
        comments_shown(scene, unit, excerpts),
{
    assert forall|row: int| #[trigger]
        comment_unlinked(
            scene.pair.before,
            scene.graph.tree.leaves.before@,
            unit.before as int,
            unit,
            row,
        ) implies old_line_shown(excerpts, (row + 1) as usize) by {
        let tree = scene.pair.before;
        let id = choose|id: int|
            tree.in_subtree(unit.before as int, id) && is_comment(#[trigger] tree.nodes@[id])
                && !linked_in_unit(scene.graph.tree.leaves.before@[id], unit) && row_span(
                tree,
                id,
            ).has(row);
        let part = removed_edits(scene, id);
        let edit = part[row - row_span(tree, id).start];
        assert(part.contains(edit));
        assert(edits.contains(edit));
        let k = choose|k: int| 0 <= k < edits.len() && edits[k] == edit;
        assert(row_shown_somewhere(excerpts, UnitRow::Edit(edits[k])));
    }
    assert forall|row: int| #[trigger]
        comment_unlinked(
            scene.pair.after,
            scene.graph.tree.leaves.after@,
            unit.after as int,
            unit,
            row,
        ) implies current_line_shown(excerpts, (row + 1) as usize) by {
        let tree = scene.pair.after;
        let id = choose|id: int|
            tree.in_subtree(unit.after as int, id) && is_comment(#[trigger] tree.nodes@[id])
                && !linked_in_unit(scene.graph.tree.leaves.after@[id], unit) && row_span(
                tree,
                id,
            ).has(row);
        let part = added_edits(scene, id);
        let edit = part[row - row_span(tree, id).start];
        assert(part.contains(edit));
        assert(edits.contains(edit));
        let k = choose|k: int| 0 <= k < edits.len() && edits[k] == edit;
        assert(row_shown_somewhere(excerpts, UnitRow::Edit(edits[k])));
    }
}

/// The mark covers exactly one payload leaf.
pub open spec fn marks_leaf(tree: SyntaxTree, mark: Span) -> bool {
    exists|id: int|
        0 <= id < tree.nodes@.len() && is_significant(#[trigger] tree.nodes@[id])
            && tree.nodes@[id].bytes == mark
}

/// Add one node to an ascending list.
fn add_node(nodes: &mut Vec<NodeId>, id: NodeId, Ghost(count): Ghost<int>)
    requires
        ascending(old(nodes)@),
        id < count,
        forall|k: int| 0 <= k < old(nodes)@.len() ==> (#[trigger] old(nodes)@[k]) < count,
    ensures
        ascending(final(nodes)@),
        forall|k: int| 0 <= k < final(nodes)@.len() ==> (#[trigger] final(nodes)@[k]) < count,
        forall|other: NodeId| #[trigger]
            final(nodes)@.contains(other) <==> old(nodes)@.contains(other) || other == id,
{
    let ghost earlier = nodes@;
    insert_ascending(nodes, id);
    proof {
        assert(nodes@.contains(id));
        assert forall|k: int| 0 <= k < nodes@.len() implies (#[trigger] nodes@[k]) < count by {
            assert(nodes@.contains(nodes@[k]));
            if nodes@[k] != id {
                assert(earlier.contains(nodes@[k]));
                let i = choose|i: int| 0 <= i < earlier.len() && earlier[i] == nodes@[k];
                assert(earlier[i] < count);
            }
        }
    }
}

/// Add the leaves below a node.
fn add_nodes(tree: &SyntaxTree, nodes: &mut Vec<NodeId>, leaves: &Vec<NodeId>, id: NodeId)
    requires
        tree.wf(),
        tree.has_node(id as int),
        tree.is_content_list(leaves@, id as int, tree.nodes@[id as int].subtree_end as int),
        ascending(old(nodes)@),
        forall|k: int| 0 <= k < old(nodes)@.len() ==> (#[trigger] old(nodes)@[k])
            < tree.nodes@.len(),
    ensures
        ascending(final(nodes)@),
        forall|k: int| 0 <= k < final(nodes)@.len() ==> (#[trigger] final(nodes)@[k])
            < tree.nodes@.len(),
        forall|leaf: NodeId| #[trigger]
            final(nodes)@.contains(leaf) <==> old(nodes)@.contains(leaf) || (tree.in_subtree(
                id as int,
                leaf as int,
            ) && tree.nodes@[leaf as int].is_content_leaf()),
{
    proof {
        assert(crate::syntax::node_fits(
            tree.nodes@[id as int],
            id as int,
            tree.nodes@.len() as int,
            tree.source.data().len() as int,
        ));
    }
    let mut index: usize = 0;
    while index < leaves.len()
        invariant
            tree.nodes@[id as int].subtree_end <= tree.nodes@.len(),
            tree.is_content_list(leaves@, id as int, tree.nodes@[id as int].subtree_end as int),
            index <= leaves@.len(),
            ascending(nodes@),
            forall|k: int| 0 <= k < nodes@.len() ==> (#[trigger] nodes@[k]) < tree.nodes@.len(),
            forall|other: NodeId| #[trigger]
                nodes@.contains(other) <==> old(nodes)@.contains(other) || leaves@.take(
                    index as int,
                ).contains(other),
        decreases leaves@.len() - index,
    {
        let leaf = leaves[index];
        let ghost earlier = nodes@;
        assert(leaves@[index as int] < tree.nodes@[id as int].subtree_end);
        add_node(nodes, leaf, Ghost(tree.nodes@.len() as int));
        proof {
            crate::plan::display::lemma_take_contains(leaves@, index as int);
        }
        index += 1;
    }
    proof {
        assert(leaves@.take(index as int) =~= leaves@);
        assert forall|leaf: NodeId| #[trigger] leaves@.contains(leaf) <==> (tree.in_subtree(
            id as int,
            leaf as int,
        ) && tree.nodes@[leaf as int].is_content_leaf()) by {
            if leaves@.contains(leaf) {
                let k = choose|k: int| 0 <= k < leaves@.len() && leaves@[k] == leaf;
                assert(id <= leaves@[k] < tree.nodes@[id as int].subtree_end);
            }
        }
    }
}

/// Whether every visible part of a row is marked, and there is one.
fn line_is_fully_marked(row: &SourceRow) -> (result: bool)
    ensures
        result == fully_marked(*row),
{
    let mut visible: bool = false;
    let mut index: usize = 0;
    while index < row.spans.len()
        invariant
            index <= row.spans@.len(),
            visible == exists|k: int|
                0 <= k < index && !all_white((#[trigger] row.spans@[k]).text@),
            forall|k: int|
                0 <= k < index ==> all_white((#[trigger] row.spans@[k]).text@) || row.spans@[k].mark
                    != DiffMark::Context,
        decreases row.spans@.len() - index,
    {
        let span = &row.spans[index];
        if !blank(span.text.as_str()) {
            assert(!all_white(row.spans@[index as int].text@));
            visible = true;
            if matches!(span.mark, DiffMark::Context) {
                return false;
            }
        }
        index += 1;
    }
    visible
}

/// Some span is visible, and every visible span is marked.
pub open spec fn fully_marked(row: SourceRow) -> bool {
    &&& exists|k: int| 0 <= k < row.spans@.len() && !all_white((#[trigger] row.spans@[k]).text@)
    &&& forall|k: int|
        0 <= k < row.spans@.len() ==> all_white((#[trigger] row.spans@[k]).text@)
            || row.spans@[k].mark != DiffMark::Context
}

/// Lines that marks fill become edits of their own.
fn append_fully_marked(
    scene: &PlanScene<'_>,
    edits: &mut Vec<LineEdit>,
    rows: Span,
    marks: &Vec<Span>,
    removed: bool,
    Ghost(unit): Ghost<MatchedUnit>,
    Ghost(others): Ghost<Seq<Span>>,
)
    requires
        scene.wf(),
        edits_fit(*scene, old(edits)@),
        rows.start <= rows.end,
        rows == if removed {
            row_span(scene.pair.before, unit.before as int)
        } else {
            row_span(scene.pair.after, unit.after as int)
        },
        rows.end <= if removed {
            scene.before_count()
        } else {
            scene.after_count()
        },
    ensures
        edits_fit(*scene, final(edits)@),
        all_listed(old(edits)@, final(edits)@),
        forall|edit: LineEdit| #[trigger]
            final(edits)@.contains(edit) ==> old(edits)@.contains(edit) || is_filled_edit(
                *scene,
                unit,
                if removed {
                    marks@
                } else {
                    others
                },
                if removed {
                    others
                } else {
                    marks@
                },
                edit,
            ),
{
    proof {
        scene.pair.before.source.lemma_line_count();
        scene.pair.after.source.lemma_line_count();
    }
    let ghost start = edits@;
    let ghost old_marks = if removed {
        marks@
    } else {
        others
    };
    let ghost new_marks = if removed {
        others
    } else {
        marks@
    };
    let mut row = rows.start;
    while row < rows.end
        invariant
            scene.wf(),
            scene.before_count() < usize::MAX,
            scene.after_count() < usize::MAX,
            rows.start <= row <= rows.end,
            rows.end <= if removed {
                scene.before_count()
            } else {
                scene.after_count()
            },
            edits_fit(*scene, edits@),
            start.is_prefix_of(edits@),
            removed ==> old_marks == marks@,
            !removed ==> new_marks == marks@,
            rows == if removed {
                row_span(scene.pair.before, unit.before as int)
            } else {
                row_span(scene.pair.after, unit.after as int)
            },
            forall|k: int|
                start.len() <= k < edits@.len() ==> is_filled_edit(
                    *scene,
                    unit,
                    old_marks,
                    new_marks,
                    #[trigger] edits@[k],
                ),
        decreases rows.end - row,
    {
        let display = if removed {
            source_row(&scene.pair.before, row + 1, marks, DiffMark::Removed)
        } else {
            source_row(&scene.pair.after, row + 1, marks, DiffMark::Added)
        };
        if line_is_fully_marked(&display) {
            proof {
                if removed {
                    assert(row_marks(scene.pair.before, display, marks@, DiffMark::Removed));
                    assert(is_filled_row(*scene, unit, old_marks, row as int, true));
                } else {
                    assert(row_marks(scene.pair.after, display, marks@, DiffMark::Added));
                    assert(is_filled_row(*scene, unit, new_marks, row as int, false));
                }
            }
            edits.push(
                if removed {
                    LineEdit { before: Some(row + 1), after: None }
                } else {
                    LineEdit { before: None, after: Some(row + 1) }
                },
            );
        }
        row += 1;
    }
    proof {
        assert forall|edit: LineEdit| start.contains(edit) implies #[trigger] edits@.contains(
            edit,
        ) by {
            let k = choose|k: int| 0 <= k < start.len() && start[k] == edit;
            assert(edits@[k] == edit);
        }
        assert forall|edit: LineEdit| #[trigger] edits@.contains(edit) implies start.contains(edit)
            || is_filled_edit(*scene, unit, old_marks, new_marks, edit) by {
            let k = choose|k: int| 0 <= k < edits@.len() && edits@[k] == edit;
            if k < start.len() {
                assert(start[k] == edit);
            }
        }
    }
}

/// Retained structure overlaps rows of either revision.
pub open spec fn regions_overlap(
    retained: Seq<RetainedRegion>,
    before: Span,
    after: Span,
) -> bool {
    exists|k: int|
        0 <= k < retained.len() && ((#[trigger] retained[k]).before.start < before.end
            && before.start < retained[k].before.end || retained[k].after.start < after.end
            && after.start < retained[k].after.end)
}

/// Whether retained structure overlaps rows of either revision.
fn retained_regions_overlap(retained: &Vec<RetainedRegion>, before: Span, after: Span) -> (result: bool)
    ensures
        result == regions_overlap(retained@, before, after),
{
    let mut index: usize = 0;
    while index < retained.len()
        invariant
            index <= retained@.len(),
            forall|k: int|
                0 <= k < index ==> !((
                #[trigger] retained@[k]).before.start < before.end && before.start
                    < retained@[k].before.end || retained@[k].after.start < after.end
                    && after.start < retained@[k].after.end),
        decreases retained@.len() - index,
    {
        let region = retained[index];
        if region.before.start < before.end && before.start < region.before.end
            || region.after.start < after.end && after.start < region.after.end {
            assert(retained@[index as int] == region);
            return true;
        }
        index += 1;
    }
    false
}

/// Whether all rows of two ranges of one length are unchanged, pair by pair.
fn all_rows_linked(scene: &PlanScene<'_>, before: Span, after: Span) -> (result: bool)
    requires
        scene.wf(),
        before.start <= before.end,
        after.start <= after.end,
        before.end - before.start == after.end - after.start,
    ensures
        result == rows_linked(*scene, before, after),
{
    let links = scene.graph.source.line_links_in(before, after);
    proof {
        crate::plan::facts::lemma_selected(scene.graph.source.lines@, before, after);
        if rows_linked(*scene, before, after) {
            lemma_rows_linked(*scene, before, after);
        }
    }
    if links.len() != before.len() {
        return false;
    }
    let mut offset: usize = 0;
    while offset < links.len()
        invariant
            before.start <= before.end,
            after.start <= after.end,
            before.end - before.start == after.end - after.start,
            links@.len() == before.end - before.start,
            offset <= links@.len(),
            rows_linked(*scene, before, after) ==> forall|k: int|
                0 <= k < links@.len() ==> (#[trigger] links@[k]) == (LineLink {
                    before: (before.start + k) as usize,
                    after: (after.start + k) as usize,
                }),
            forall|k: int|
                0 <= k < links@.len() ==> scene.graph.source.lines@.contains(#[trigger] links@[k]),
            forall|k: int|
                0 <= k < offset ==> #[trigger] pair_linked(
                    *scene,
                    before.start + k,
                    after.start + k,
                ),
        decreases links@.len() - offset,
    {
        let link = links[offset];
        if link.before != before.start + offset || link.after != after.start + offset {
            return false;
        }
        assert(scene.graph.source.lines@.contains(links@[offset as int]));
        assert(pair_linked(*scene, before.start + offset, after.start + offset));
        offset += 1;
    }
    true
}

/// Row by row, the ranges hold unchanged partners.
pub open spec fn rows_linked(scene: PlanScene<'_>, before: Span, after: Span) -> bool {
    forall|k: int|
        0 <= k < before.end - before.start ==> #[trigger] pair_linked(
            scene,
            before.start + k,
            after.start + k,
        )
}

/// Where the rows of two ranges are partners one by one, the links in the ranges are those.
proof fn lemma_rows_linked(scene: PlanScene<'_>, before: Span, after: Span)
    requires
        scene.wf(),
        before.start <= before.end,
        after.start <= after.end,
        before.end - before.start == after.end - after.start,
        rows_linked(scene, before, after),
    ensures
        links_in(scene.graph.source.lines@, before, after).len() == before.end - before.start,
        forall|k: int|
            0 <= k < before.end - before.start ==> (#[trigger] links_in(
                scene.graph.source.lines@,
                before,
                after,
            )[k]) == (LineLink {
                before: (before.start + k) as usize,
                after: (after.start + k) as usize,
            }),
{
    let lines = scene.graph.source.lines@;
    let links = links_in(lines, before, after);
    let count = before.end - before.start;
    crate::plan::facts::lemma_selected(lines, before, after);
    assert forall|k: int| 0 <= k < count implies k < links.len() && (#[trigger] links[k]) == (
    LineLink { before: (before.start + k) as usize, after: (after.start + k) as usize }) by {
        lemma_row_linked_at(scene, before, after, k);
    }
    if links.len() > count {
        lemma_ascends_from(links, before.start as int, count);
        assert(link_in(links[count], before, after));
    }
    if count > 0 {
        lemma_row_linked_at(scene, before, after, count - 1);
    }
}

/// The link of a row stands at its place.
proof fn lemma_row_linked_at(scene: PlanScene<'_>, before: Span, after: Span, k: int)
    requires
        scene.wf(),
        before.start <= before.end,
        after.start <= after.end,
        before.end - before.start == after.end - after.start,
        rows_linked(scene, before, after),
        0 <= k < before.end - before.start,
    ensures
        k < links_in(scene.graph.source.lines@, before, after).len(),
        links_in(scene.graph.source.lines@, before, after)[k] == (LineLink {
            before: (before.start + k) as usize,
            after: (after.start + k) as usize,
        }),
    decreases k,
{
    let lines = scene.graph.source.lines@;
    let links = links_in(lines, before, after);
    let pred = |link: LineLink| link_in(link, before, after);
    let link = LineLink {
        before: (before.start + k) as usize,
        after: (after.start + k) as usize,
    };
    crate::plan::facts::lemma_selected(lines, before, after);
    lines.filter_lemma(pred);
    assert(pair_linked(scene, before.start + k, after.start + k));
    let at = choose|at: int| 0 <= at < lines.len() && lines[at] == link;
    assert(pred(lines[at]));
    assert(lines.filter(pred).contains(lines[at]));
    let i = choose|i: int| 0 <= i < links.len() && links[i] == link;
    lemma_ascends_from(links, before.start as int, i);
    if k > 0 {
        lemma_row_linked_at(scene, before, after, k - 1);
        if i < k - 1 {
            assert(links[i].before < links[k - 1].before);
        }
    }
}

/// Rows that ascend from a first row lie at least as far behind it as their place.
proof fn lemma_ascends_from(links: Seq<LineLink>, first: int, at: int)
    requires
        rows_ascend(links),
        forall|k: int| 0 <= k < links.len() ==> first <= (#[trigger] links[k]).before,
        0 <= at < links.len(),
    ensures
        first + at <= links[at].before,
    decreases at,
{
    if at > 0 {
        lemma_ascends_from(links, first, at - 1);
        assert(links[at - 1].before < links[at].before);
    }
}

/// The rows are unchanged partners.
pub open spec fn pair_linked(scene: PlanScene<'_>, before: int, after: int) -> bool {
    scene.graph.source.lines@.contains(
        LineLink { before: before as usize, after: after as usize },
    )
}

/// Exact weak rows between nearby edits belong to their shared replacement.
fn expand_line_edits_through_weak_rows(
    scene: &PlanScene<'_>,
    retained: &Vec<RetainedRegion>,
    edits: Vec<LineEdit>,
) -> (result: Vec<LineEdit>)
    requires
        scene.wf(),
        edits_fit(*scene, edits@),
        edits_ascend(edits@),
    ensures
        edits_fit(*scene, result@),
        edits_ascend(result@),
        widens(*scene, retained@, edits@, result@),
{
    let ghost listed = edits@;
    let mut all: Vec<LineEdit> = Vec::new();
    let mut index: usize = 0;
    while index < edits.len()
        invariant
            scene.wf(),
            edits_fit(*scene, edits@),
            index <= edits@.len(),
            edits_fit(*scene, all@),
            forall|edit: LineEdit| #[trigger]
                all@.contains(edit) <==> widened_to(
                    *scene,
                    retained@,
                    edits@,
                    index as int,
                    edit,
                ),
        decreases edits@.len() - index,
    {
        let ghost earlier = all@;
        let edit = edits[index];
        assert(edits@[index as int].fits(scene.before_count(), scene.after_count()));
        all.push(edit);
        let ghost before_gap = all@;
        if index + 1 < edits.len() {
            assert(edits@[index + 1].fits(scene.before_count(), scene.after_count()));
            append_weak_rows(scene, retained, &mut all, edit, edits[index + 1]);
        }
        proof {
            assert forall|other: LineEdit| #[trigger]
                all@.contains(other) <==> widened_to(
                    *scene,
                    retained@,
                    edits@,
                    index + 1,
                    other,
                ) by {
                lemma_edits_push(earlier, edit, other);
                lemma_widened_next(*scene, retained@, edits@, index as int, other);
                assert(before_gap.contains(other) <==> earlier.contains(other) || other == edit);
            }
        }
        index += 1;
    }
    let ghost whole = all@;
    let result = deduplicate_line_edits(all);
    proof {
        assert forall|k: int| 0 <= k < result@.len() implies (#[trigger] result@[k]).fits(
            scene.before_count(),
            scene.after_count(),
        ) by {
            assert(result@.contains(result@[k]));
            let i = choose|i: int| 0 <= i < whole.len() && whole[i] == result@[k];
            assert(whole[i].fits(scene.before_count(), scene.after_count()));
        }
        assert forall|edit: LineEdit| listed.contains(edit) implies #[trigger] result@.contains(
            edit,
        ) by {
            assert(widened_to(*scene, retained@, listed, listed.len() as int, edit));
            assert(whole.contains(edit));
        }
        assert forall|edit: LineEdit| #[trigger] result@.contains(edit) <==> listed.contains(edit)
            || is_weak_row(*scene, retained@, listed, edit) by {
            lemma_widened_all(*scene, retained@, listed, edit);
            assert(whole.contains(edit) <==> widened_to(
                *scene,
                retained@,
                listed,
                listed.len() as int,
                edit,
            ));
        }
    }
    result
}

/// The edit is among the first of the list, or a weak row behind one of them.
spec fn widened_to(
    scene: PlanScene<'_>,
    retained: Seq<RetainedRegion>,
    edits: Seq<LineEdit>,
    count: int,
    edit: LineEdit,
) -> bool {
    ||| exists|k: int| 0 <= k < count && (#[trigger] edits[k]) == edit
    ||| exists|k: int|
        0 <= k < count && k < edits.len() - 1 && is_gap_row(
            scene,
            retained,
            #[trigger] edits[k],
            edits[k + 1],
            edit,
        )
}

/// One more edit, and the gap behind it.
proof fn lemma_widened_next(
    scene: PlanScene<'_>,
    retained: Seq<RetainedRegion>,
    edits: Seq<LineEdit>,
    count: int,
    edit: LineEdit,
)
    requires
        0 <= count < edits.len(),
    ensures
        widened_to(scene, retained, edits, count + 1, edit) <==> widened_to(
            scene,
            retained,
            edits,
            count,
            edit,
        ) || edits[count] == edit || (count + 1 < edits.len() && is_gap_row(
            scene,
            retained,
            edits[count],
            edits[count + 1],
            edit,
        )),
{
    if widened_to(scene, retained, edits, count, edit) {
        if exists|k: int| 0 <= k < count && (#[trigger] edits[k]) == edit {
            let k = choose|k: int| 0 <= k < count && (#[trigger] edits[k]) == edit;
            assert(0 <= k < count + 1 && edits[k] == edit);
        } else {
            let k = choose|k: int|
                0 <= k < count && k < edits.len() - 1 && is_gap_row(
                    scene,
                    retained,
                    #[trigger] edits[k],
                    edits[k + 1],
                    edit,
                );
            assert(0 <= k < count + 1 && is_gap_row(
                scene,
                retained,
                edits[k],
                edits[k + 1],
                edit,
            ));
        }
    }
}

/// The whole list with its gaps.
proof fn lemma_widened_all(
    scene: PlanScene<'_>,
    retained: Seq<RetainedRegion>,
    edits: Seq<LineEdit>,
    edit: LineEdit,
)
    ensures
        widened_to(scene, retained, edits, edits.len() as int, edit) <==> edits.contains(edit)
            || is_weak_row(scene, retained, edits, edit),
{
    if edits.contains(edit) {
        let k = choose|k: int| 0 <= k < edits.len() && edits[k] == edit;
        assert(edits[k] == edit);
    }
    if is_weak_row(scene, retained, edits, edit) {
        let k = choose|k: int|
            0 <= k < edits.len() - 1 && is_gap_row(
                scene,
                retained,
                #[trigger] edits[k],
                edits[k + 1],
                edit,
            );
        assert(is_gap_row(scene, retained, edits[k], edits[k + 1], edit));
    }
    if exists|k: int|
        0 <= k < edits.len() && k < edits.len() - 1 && is_gap_row(
            scene,
            retained,
            #[trigger] edits[k],
            edits[k + 1],
            edit,
        ) {
        let k = choose|k: int|
            0 <= k < edits.len() && k < edits.len() - 1 && is_gap_row(
                scene,
                retained,
                #[trigger] edits[k],
                edits[k + 1],
                edit,
            );
        assert(is_gap_row(scene, retained, edits[k], edits[k + 1], edit));
    }
}

/// One more edit keeps the others and adds itself.
proof fn lemma_edits_push(edits: Seq<LineEdit>, edit: LineEdit, other: LineEdit)
    ensures
        edits.push(edit).contains(other) <==> edits.contains(other) || other == edit,
{
    if edits.contains(other) {
        let k = choose|k: int| 0 <= k < edits.len() && edits[k] == other;
        assert(edits.push(edit)[k] == other);
    }
    assert(edits.push(edit)[edits.len() as int] == edit);
}

/// The first payload of some row opens a node that holds more than this leaf.
pub open spec fn row_begins(tree: SyntaxTree, row: int) -> bool {
    exists|leaf: int| #[trigger] opens_row(tree, row, leaf) && opens_node(tree, leaf)
}

/// The leaf is the first payload that starts in the row.
pub open spec fn opens_row(tree: SyntaxTree, row: int, leaf: int) -> bool {
    let content = tree.source.line_seq()[row].content_bytes;
    &&& tree.has_node(leaf)
    &&& is_significant(tree.nodes@[leaf])
    &&& content.has(tree.nodes@[leaf].bytes.start as int)
    &&& forall|other: int|
        0 <= other < leaf && is_significant(#[trigger] tree.nodes@[other]) ==> !content.has(
            tree.nodes@[other].bytes.start as int,
        )
}

/// The parent of the leaf starts with it.
pub open spec fn opens_node(tree: SyntaxTree, leaf: int) -> bool {
    tree.nodes@[leaf].parent matches Some(parent) && tree.nodes@[parent as int].bytes.start
        == tree.nodes@[leaf].bytes.start
}

/// Whether some row opens a node: such rows are no continuation of what stands before them.
fn begins_structure(tree: &SyntaxTree, rows: Span) -> (result: bool)
    requires
        tree.wf(),
        rows.start <= rows.end <= tree.source.line_seq().len(),
    ensures
        result == exists|row: int| rows.has(row) && #[trigger] row_begins(*tree, row),
{
    let mut row = rows.start;
    while row < rows.end
        invariant
            tree.wf(),
            rows.start <= row <= rows.end <= tree.source.line_seq().len(),
            forall|other: int| rows.start <= other < row ==> !#[trigger] row_begins(*tree, other),
        decreases rows.end - row,
    {
        let content = tree.source.lines()[row].content_bytes;
        let mut leaf: usize = 0;
        while leaf < tree.nodes.len() && !(significant_leaf(&tree.nodes[leaf]) && content.contains(
            tree.nodes[leaf].bytes.start,
        ))
            invariant
                tree.wf(),
                row < tree.source.line_seq().len(),
                content == tree.source.line_seq()[row as int].content_bytes,
                leaf <= tree.nodes@.len(),
                forall|other: int|
                    0 <= other < leaf && is_significant(#[trigger] tree.nodes@[other])
                        ==> !content.has(tree.nodes@[other].bytes.start as int),
            decreases tree.nodes@.len() - leaf,
        {
            leaf += 1;
        }
        if leaf < tree.nodes.len() {
            assert(opens_row(*tree, row as int, leaf as int));
            if let Some(parent) = tree.nodes[leaf].parent {
                assert(crate::syntax::parent_holds(tree.nodes@, leaf as int));
                if tree.nodes[parent].bytes.start == tree.nodes[leaf].bytes.start {
                    assert(row_begins(*tree, row as int));
                    return true;
                }
            }
            assert forall|other: int| opens_row(*tree, row as int, other) implies other
                == leaf by {
                if other < leaf {
                    assert(is_significant(tree.nodes@[other]));
                }
            }
        } else {
            assert forall|other: int| !opens_row(*tree, row as int, other) by {
                if tree.has_node(other) {
                    assert(other < leaf);
                }
            }
        }
        row += 1;
    }
    false
}

/// Few rows between two edits, unchanged one by one, that hold no retained structure and open
/// nothing: they only continue what stands before them.
#[verifier::opaque]
pub open spec fn weak_gap(
    scene: PlanScene<'_>,
    retained: Seq<RetainedRegion>,
    before: Span,
    after: Span,
) -> bool {
    &&& before.start < before.end
    &&& before.end - before.start == after.end - after.start
    &&& before.end - before.start <= 2 * CONTEXT_HALO_RADIUS + 1
    &&& !regions_overlap(retained, before, after)
    &&& !exists|row: int| after.has(row) && #[trigger] row_begins(scene.pair.after, row)
    &&& rows_linked(scene, before, after)
}

/// The edit pairs two rows of a weak gap between two edits of which each pairs two lines.
pub open spec fn is_gap_row(
    scene: PlanScene<'_>,
    retained: Seq<RetainedRegion>,
    left: LineEdit,
    right: LineEdit,
    edit: LineEdit,
) -> bool {
    match (left.before, left.after, right.before, right.after) {
        (Some(left_before), Some(left_after), Some(right_before), Some(right_after)) => {
            &&& left_before < right_before
            &&& left_after < right_after
            &&& weak_gap(
                scene,
                retained,
                Span { start: left_before, end: (right_before - 1) as usize },
                Span { start: left_after, end: (right_after - 1) as usize },
            )
            &&& edit.before matches Some(line) && left_before < line < right_before && edit.after
                == Some((left_after + (line - left_before)) as usize)
        },
        _ => false,
    }
}

/// The edit pairs two rows of a weak gap between two neighbours of the list.
pub open spec fn is_weak_row(
    scene: PlanScene<'_>,
    retained: Seq<RetainedRegion>,
    edits: Seq<LineEdit>,
    edit: LineEdit,
) -> bool {
    exists|k: int|
        0 <= k < edits.len() - 1 && is_gap_row(
            scene,
            retained,
            #[trigger] edits[k],
            edits[k + 1],
            edit,
        )
}

/// The list holds the edits and the weak rows between them, and nothing else.
pub open spec fn widens(
    scene: PlanScene<'_>,
    retained: Seq<RetainedRegion>,
    edits: Seq<LineEdit>,
    shown: Seq<LineEdit>,
) -> bool {
    forall|edit: LineEdit| #[trigger]
        shown.contains(edit) <==> edits.contains(edit) || is_weak_row(scene, retained, edits, edit)
}

/// Whether unchanged rows only continue what stands before them.
fn is_weak_gap(
    scene: &PlanScene<'_>,
    retained: &Vec<RetainedRegion>,
    before: Span,
    after: Span,
) -> (result: bool)
    requires
        scene.wf(),
        before.start <= before.end,
        after.start <= after.end < scene.after_count(),
    ensures
        result == weak_gap(*scene, retained@, before, after),
{
    proof {
        reveal(weak_gap);
    }
    if before.is_empty() || before.len() != after.len() || !context_gap_fits_halos(before.len())
        || retained_regions_overlap(retained, before, after) {
        return false;
    }
    if begins_structure(&scene.pair.after, after) {
        return false;
    }
    all_rows_linked(scene, before, after)
}

/// Add the rows between two paired edits, if they are few, unchanged, not retained, and open
/// nothing.
#[verifier::rlimit(60)]
#[verifier::spinoff_prover]
fn append_weak_rows(
    scene: &PlanScene<'_>,
    retained: &Vec<RetainedRegion>,
    edits: &mut Vec<LineEdit>,
    left: LineEdit,
    right: LineEdit,
)
    requires
        scene.wf(),
        edits_fit(*scene, old(edits)@),
        left.fits(scene.before_count(), scene.after_count()),
        right.fits(scene.before_count(), scene.after_count()),
    ensures
        edits_fit(*scene, final(edits)@),
        old(edits)@.is_prefix_of(final(edits)@),
        forall|edit: LineEdit| #[trigger]
            final(edits)@.contains(edit) <==> old(edits)@.contains(edit) || is_gap_row(
                *scene,
                retained@,
                left,
                right,
                edit,
            ),
{
    if let (Some(left_before), Some(left_after), Some(right_before), Some(right_after)) = (
        left.before,
        left.after,
        right.before,
        right.after,
    ) {
        if left_before >= right_before || left_after >= right_after {
            return;
        }
        let before = Span { start: left_before, end: right_before - 1 };
        let after = Span { start: left_after, end: right_after - 1 };
        if !is_weak_gap(scene, retained, before, after) {
            return;
        }
        assert(before.end - before.start == after.end - after.start && rows_linked(
            *scene,
            before,
            after,
        )) by {
            reveal(weak_gap);
        }
        proof {
            scene.pair.before.source.lemma_line_count();
            scene.pair.after.source.lemma_line_count();
        }
        let mut offset: usize = 0;
        while offset < before.len()
            invariant
                scene.wf(),
                scene.before_count() < usize::MAX,
                scene.after_count() < usize::MAX,
                before.start <= before.end,
                before.end - before.start == after.end - after.start,
                offset <= before.end - before.start,
                rows_linked(*scene, before, after),
                edits_fit(*scene, edits@),
                old(edits)@.is_prefix_of(edits@),
                edits@.len() == old(edits)@.len() + offset,
                forall|k: int|
                    0 <= k < offset ==> (#[trigger] edits@[old(edits)@.len() + k]) == (LineEdit {
                        before: Some((before.start + k + 1) as usize),
                        after: Some((after.start + k + 1) as usize),
                    }),
            decreases before.end - before.start - offset,
        {
            proof {
                assert(pair_linked(*scene, before.start + offset, after.start + offset));
                let link = LineLink {
                    before: (before.start + offset) as usize,
                    after: (after.start + offset) as usize,
                };
                let k = choose|k: int|
                    0 <= k < scene.graph.source.lines@.len() && scene.graph.source.lines@[k]
                        == link;
                assert(crate::correspondence::lines::link_fits(
                    *scene.pair,
                    scene.graph.source.lines@[k],
                ));
            }
            edits.push(
                LineEdit {
                    before: Some(before.start + offset + 1),
                    after: Some(after.start + offset + 1),
                },
            );
            offset += 1;
        }
        proof {
            let earlier = old(edits)@;
            assert forall|edit: LineEdit| #[trigger] edits@.contains(edit) implies earlier.contains(
                edit,
            ) || is_gap_row(*scene, retained@, left, right, edit) by {
                let k = choose|k: int| 0 <= k < edits@.len() && edits@[k] == edit;
                if k < earlier.len() {
                    assert(earlier[k] == edit);
                } else {
                    assert(edits@[earlier.len() + (k - earlier.len())] == edit);
                }
            }
            assert forall|edit: LineEdit|
                earlier.contains(edit) || is_gap_row(
                    *scene,
                    retained@,
                    left,
                    right,
                    edit,
                ) implies #[trigger] edits@.contains(edit) by {
                if earlier.contains(edit) {
                    let k = choose|k: int| 0 <= k < earlier.len() && earlier[k] == edit;
                    assert(edits@[k] == edit);
                } else if let Some(line) = edit.before {
                    let k = line - left_before - 1;
                    assert(edits@[earlier.len() + k] == edit);
                }
            }
        }
    }
}

/// Leaves that the edits of a unit mark as a whole.
pub struct EditTokens {
    pub removed: Vec<Span>,
    pub added: Vec<Span>,
}

/// Every change of the excerpts shows an unchanged line, stands for lines left out, or is drawn
/// with the tokens as its marks: removed tokens in old lines, added tokens in current ones.
pub open spec fn draws_tokens(
    scene: PlanScene<'_>,
    excerpts: Seq<Excerpt>,
    tokens: EditTokens,
) -> bool {
    exists|rows: Seq<UnitRow>, marks: RowMarks| #[trigger]
        excerpts_drawn(scene, excerpts, rows, marks) && marks.removed == tokens.removed
            && marks.added == tokens.added
}

/// Old and current line of the first bytes of a link's leaves.
fn link_lines(scene: &PlanScene<'_>, link: &LeafLink) -> (lines: (usize, usize))
    requires
        scene.pair.before.has_node(link.before as int),
        scene.pair.after.has_node(link.after as int),
    ensures
        lines.0 == scene.pair.before.nodes@[link.before as int].lines.start,
        lines.1 == scene.pair.after.nodes@[link.after as int].lines.start,
{
    (
        scene.pair.before.nodes[link.before].lines.start,
        scene.pair.after.nodes[link.after].lines.start,
    )
}

/// The edit pairs a line of the link with a line on which its partner does not stand.
pub open spec fn parts_link(edit: LineEdit, before: usize, after: usize) -> bool {
    ||| edit.before == Some(before) && edit.after is Some && edit.after != Some(after)
    ||| edit.after == Some(after) && edit.before is Some && edit.before != Some(before)
}

/// Some edit parts the lines of the link.
pub open spec fn link_parted(scene: PlanScene<'_>, link: LeafLink, edits: Seq<LineEdit>) -> bool {
    exists|e: int|
        0 <= e < edits.len() && parts_link(
            #[trigger] edits[e],
            scene.pair.before.nodes@[link.before as int].lines.start,
            scene.pair.after.nodes@[link.after as int].lines.start,
        )
}

/// Whether lines of paired edits spread over other lines of the other revision.
#[verifier::rlimit(60)]
#[verifier::spinoff_prover]
fn edits_spread(scene: &PlanScene<'_>, unit: &MatchedUnit, edits: &Vec<LineEdit>) -> (result: bool)
    requires
        scene.wf(),
        scene.unit_fits(*unit),
    ensures
        result == exists|k: int|
            unit.leaf_links.start <= k < unit.leaf_links.end && link_parted(
                *scene,
                #[trigger] scene.graph.tree.leaves.links@[k],
                edits@,
            ),
{
    let links = scene.graph.tree.unit_leaf_links(unit);
    let mut index: usize = 0;
    while index < links.len()
        invariant
            scene.wf(),
            scene.unit_fits(*unit),
            links@ == scene.graph.tree.leaves.links@.subrange(
                unit.leaf_links.start as int,
                unit.leaf_links.end as int,
            ),
            index <= links@.len(),
            forall|k: int|
                0 <= k < index ==> !link_parted(*scene, #[trigger] links@[k], edits@),
        decreases links@.len() - index,
    {
        let link = links[index];
        assert(link == scene.graph.tree.leaves.links@[unit.leaf_links.start + index]);
        let (before, after) = link_lines(scene, &link);
        let mut at: usize = 0;
        while at < edits.len()
            invariant
                at <= edits@.len(),
                before == scene.pair.before.nodes@[link.before as int].lines.start,
                after == scene.pair.after.nodes@[link.after as int].lines.start,
                forall|e: int| 0 <= e < at ==> !parts_link(#[trigger] edits@[e], before, after),
                link == scene.graph.tree.leaves.links@[unit.leaf_links.start + index],
                index < links@.len(),
                links@.len() == unit.leaf_links.end - unit.leaf_links.start,
            decreases edits@.len() - at,
        {
            let edit = edits[at];
            assert(edits@[at as int] == edit);
            if let (Some(old_line), Some(new_line)) = (edit.before, edit.after) {
                if (old_line == before) != (new_line == after) {
                    proof {
                        assert(parts_link(edits@[at as int], before, after));
                        assert(link_parted(
                            *scene,
                            scene.graph.tree.leaves.links@[unit.leaf_links.start + index],
                            edits@,
                        ));
                    }
                    return true;
                }
            }
            at += 1;
        }
        index += 1;
    }
    proof {
        assert forall|k: int|
            unit.leaf_links.start <= k < unit.leaf_links.end implies !link_parted(
            *scene,
            #[trigger] scene.graph.tree.leaves.links@[k],
            edits@,
        ) by {
            assert(links@[k - unit.leaf_links.start] == scene.graph.tree.leaves.links@[k]);
        }
    }
    false
}

/// Rows of modified payload pair a line of some link of the unit with a line on which its partner
/// does not stand: the modified lines spread over several lines of the other revision.
pub open spec fn payload_spreads(
    scene: PlanScene<'_>,
    unit: MatchedUnit,
    dependents: PresentationDependents,
) -> bool {
    exists|k: int, edit: LineEdit|
        #![trigger scene.graph.tree.leaves.links@[k], is_link_edit(
            scene,
            unit,
            dependents,
            false,
            edit,
        )]
        unit.leaf_links.start <= k < unit.leaf_links.end && is_link_edit(
            scene,
            unit,
            dependents,
            false,
            edit,
        ) && parts_link(
            edit,
            scene.pair.before.nodes@[scene.graph.tree.leaves.links@[k].before as int].lines.start,
            scene.pair.after.nodes@[scene.graph.tree.leaves.links@[k].after as int].lines.start,
        )
}

/// Whether some edit of the modified payload parts a link tells whether the payload spreads.
proof fn lemma_payload_spreads(
    scene: PlanScene<'_>,
    unit: MatchedUnit,
    dependents: PresentationDependents,
    modified: Seq<LineEdit>,
)
    requires
        lists_links(scene, unit, dependents, false, modified),
        come_from_links(scene, unit, dependents, false, modified),
    ensures
        payload_spreads(scene, unit, dependents) == exists|k: int|
            unit.leaf_links.start <= k < unit.leaf_links.end && link_parted(
                scene,
                #[trigger] scene.graph.tree.leaves.links@[k],
                modified,
            ),
{
    let links = scene.graph.tree.leaves.links@;
    if payload_spreads(scene, unit, dependents) {
        let (k, edit) = choose|k: int, edit: LineEdit|
            #![trigger links[k], is_link_edit(scene, unit, dependents, false, edit)]
            unit.leaf_links.start <= k < unit.leaf_links.end && is_link_edit(
                scene,
                unit,
                dependents,
                false,
                edit,
            ) && parts_link(
                edit,
                scene.pair.before.nodes@[links[k].before as int].lines.start,
                scene.pair.after.nodes@[links[k].after as int].lines.start,
            );
        assert(modified.contains(edit));
        let e = choose|e: int| 0 <= e < modified.len() && modified[e] == edit;
        assert(parts_link(
            modified[e],
            scene.pair.before.nodes@[links[k].before as int].lines.start,
            scene.pair.after.nodes@[links[k].after as int].lines.start,
        ));
        assert(link_parted(scene, links[k], modified));
    }
    if exists|k: int|
        unit.leaf_links.start <= k < unit.leaf_links.end && link_parted(
            scene,
            #[trigger] links[k],
            modified,
        ) {
        let k = choose|k: int|
            unit.leaf_links.start <= k < unit.leaf_links.end && link_parted(
                scene,
                #[trigger] links[k],
                modified,
            );
        let e = choose|e: int|
            0 <= e < modified.len() && parts_link(
                #[trigger] modified[e],
                scene.pair.before.nodes@[links[k].before as int].lines.start,
                scene.pair.after.nodes@[links[k].after as int].lines.start,
            );
        assert(modified.contains(modified[e]));
        assert(is_link_edit(scene, unit, dependents, false, modified[e]));
    }
}

/// The rows of one revision that marked leaves of the unit fill.
pub open spec fn is_filled_row(
    scene: PlanScene<'_>,
    unit: MatchedUnit,
    marks: Seq<Span>,
    row: int,
    removed: bool,
) -> bool {
    let tree = if removed {
        scene.pair.before
    } else {
        scene.pair.after
    };
    let id = if removed {
        unit.before as int
    } else {
        unit.after as int
    };
    &&& row_span(tree, id).has(row)
    &&& fills_row(
        tree,
        marks,
        row,
        if removed {
            DiffMark::Removed
        } else {
            DiffMark::Added
        },
    )
}

/// The row is marked throughout.
pub open spec fn fills_row(tree: SyntaxTree, marks: Seq<Span>, row: int, mark: DiffMark) -> bool {
    exists|shown: SourceRow| #[trigger]
        row_marks(tree, shown, marks, mark) && shown.number == row + 1 && fully_marked(shown)
}

/// The edit takes a whole line of one revision, which marks fill.
pub open spec fn is_filled_edit(
    scene: PlanScene<'_>,
    unit: MatchedUnit,
    old_marks: Seq<Span>,
    new_marks: Seq<Span>,
    edit: LineEdit,
) -> bool {
    match (edit.before, edit.after) {
        (Some(line), None) => is_filled_row(scene, unit, old_marks, line - 1, true),
        (None, Some(line)) => is_filled_row(scene, unit, new_marks, line - 1, false),
        _ => false,
    }
}

/// All edits of a unit with payload changes, in order: the given comments, modified payload, and
/// lines that changed leaves fill; and no others.
pub open spec fn are_payload_edits(
    scene: PlanScene<'_>,
    unit: MatchedUnit,
    dependents: PresentationDependents,
    comments: Seq<LineEdit>,
    edits: Seq<LineEdit>,
) -> bool {
    &&& edits_ascend(edits)
    &&& all_listed(comments, edits)
    &&& lists_links(scene, unit, dependents, false, edits)
    &&& exists|old_marks: Seq<Span>, new_marks: Seq<Span>| #[trigger]
        are_leaf_marks(scene, unit, dependents, old_marks, new_marks) && forall|edit: LineEdit| #[trigger]
            edits.contains(edit) ==> comments.contains(edit) || is_link_edit(
                scene,
                unit,
                dependents,
                false,
                edit,
            ) || is_filled_edit(scene, unit, old_marks, new_marks, edit)
}

/// The marks cover payload leaves of the two trees, and among them every one without a partner.
pub open spec fn are_leaf_marks(
    scene: PlanScene<'_>,
    unit: MatchedUnit,
    dependents: PresentationDependents,
    old_marks: Seq<Span>,
    new_marks: Seq<Span>,
) -> bool {
    &&& marks_unpartnered(
        scene.pair.before,
        scene.graph.tree.leaves.before@,
        unit.before as int,
        old_marks,
    )
    &&& marks_unpartnered(
        scene.pair.after,
        scene.graph.tree.leaves.after@,
        unit.after as int,
        new_marks,
    )
    &&& forall|k: int|
        0 <= k < old_marks.len() ==> marks_leaf(scene.pair.before, #[trigger] old_marks[k])
    &&& forall|k: int|
        0 <= k < new_marks.len() ==> marks_leaf(scene.pair.after, #[trigger] new_marks[k])
    &&& forall|mark: Span| #[trigger]
        old_marks.contains(mark) <==> is_changed_leaf(scene, unit, dependents, true, mark)
    &&& forall|mark: Span| #[trigger]
        new_marks.contains(mark) <==> is_changed_leaf(scene, unit, dependents, false, mark)
}

/// The excerpts show edits that hold the comments and the modified payload, every current row
/// with payload that has no partner, and the tokens as marks.
pub open spec fn payload_drawn(
    scene: PlanScene<'_>,
    unit: MatchedUnit,
    dependents: PresentationDependents,
    comments: Seq<LineEdit>,
    tokens: EditTokens,
    excerpts: Seq<Excerpt>,
) -> bool {
    exists|edits: Seq<LineEdit>| #[trigger]
        edits_shown(edits, excerpts) && all_listed(comments, edits) && lists_links(
            scene,
            unit,
            dependents,
            false,
            edits,
        ) && current_rows_shown(scene, unit, excerpts) && draws_tokens(scene, excerpts, tokens)
}

/// The excerpts claim, once each, the lines of the edits and of the weak rows between them, and
/// the current rows that marked leaves touch and no edit takes.
pub open spec fn payload_woven(
    scene: PlanScene<'_>,
    unit: MatchedUnit,
    dependents: PresentationDependents,
    edits: Seq<LineEdit>,
    excerpts: Seq<Excerpt>,
) -> bool {
    exists|old_marks: Seq<Span>, new_marks: Seq<Span>| #[trigger]
        are_leaf_marks(scene, unit, dependents, old_marks, new_marks) && marks_woven(
            scene,
            unit,
            new_marks,
            edits,
            excerpts,
        )
}

/// The marks and edits are what the excerpts claim.
pub open spec fn marks_woven(
    scene: PlanScene<'_>,
    unit: MatchedUnit,
    marks: Seq<Span>,
    edits: Seq<LineEdit>,
    excerpts: Seq<Excerpt>,
) -> bool {
    let before = row_span(scene.pair.before, unit.before as int);
    let after = row_span(scene.pair.after, unit.after as int);
    let composites = scene.graph.tree.composites@.subrange(
        unit.composites.start as int,
        unit.composites.end as int,
    );
    exists|retained: Seq<RetainedRegion>, shown: Seq<LineEdit>, base: Seq<UnitRow>|
        #![trigger widens(scene, retained, edits, shown), claims_woven(
            base,
            after.start as int,
            shown,
            excerpts,
        )]
        takes_regions(scene, composites, before, after, retained) && widens(
            scene,
            retained,
            edits,
            shown,
        ) && claims_woven(base, after.start as int, shown, excerpts) && are_marked_rows(
            scene,
            after,
            marks,
            base,
        )
}

/// Edits and the rows between them move nothing.
pub proof fn lemma_woven_moves_nothing(
    base: Seq<UnitRow>,
    first_row: int,
    edits: Seq<LineEdit>,
    excerpts: Seq<Excerpt>,
    line: usize,
)
    requires
        claims_woven(base, first_row, edits, excerpts),
    ensures
        excerpts_tally(excerpts, Claim::Moved(line)) == 0,
{
    reveal(claims_woven);
    let claim = Claim::Moved(line);
    lemma_run_nothing(row_weight(edit_rows(edits), claim), 0, edits.len() as int);
    lemma_run_nothing(kept_weight(base, first_row, edits, claim), 0, base.len() as int);
    assert(excerpts_tally(excerpts, claim) == woven_claims(base, first_row, edits, claim));
}

/// A unit whose payload changed reflows nothing.
pub proof fn lemma_payload_reflows_nothing(
    scene: PlanScene<'_>,
    unit: MatchedUnit,
    dependents: PresentationDependents,
    edits: Seq<LineEdit>,
    excerpts: Seq<Excerpt>,
    line: usize,
)
    requires
        payload_woven(scene, unit, dependents, edits, excerpts),
    ensures
        excerpts_tally(excerpts, Claim::Reflowed(line)) == 0,
        excerpts_tally(excerpts, Claim::Moved(line)) == 0,
{
    reveal(claims_woven);
    let before = row_span(scene.pair.before, unit.before as int);
    let after = row_span(scene.pair.after, unit.after as int);
    let composites = scene.graph.tree.composites@.subrange(
        unit.composites.start as int,
        unit.composites.end as int,
    );
    let (old_marks, marks) = choose|old_marks: Seq<Span>, new_marks: Seq<Span>| #[trigger]
        are_leaf_marks(scene, unit, dependents, old_marks, new_marks) && marks_woven(
            scene,
            unit,
            new_marks,
            edits,
            excerpts,
        );
    let (retained, shown, base) = choose|
        retained: Seq<RetainedRegion>,
        shown: Seq<LineEdit>,
        base: Seq<UnitRow>,
    |
        #![trigger widens(scene, retained, edits, shown), claims_woven(
            base,
            after.start as int,
            shown,
            excerpts,
        )]
        takes_regions(scene, composites, before, after, retained) && widens(
            scene,
            retained,
            edits,
            shown,
        ) && claims_woven(base, after.start as int, shown, excerpts) && are_marked_rows(
            scene,
            after,
            marks,
            base,
        );
    let claim = Claim::Reflowed(line);
    lemma_run_nothing(row_weight(edit_rows(shown), claim), 0, shown.len() as int);
    let weight = kept_weight(base, after.start as int, shown, claim);
    assert forall|k: int| 0 <= k < base.len() implies #[trigger] weight(k) == 0 by {
        assert(base[k] == base[k]);
    }
    lemma_run_nothing(weight, 0, base.len() as int);
    assert(excerpts_tally(excerpts, claim) == woven_claims(base, after.start as int, shown, claim));
    lemma_woven_moves_nothing(base, after.start as int, shown, excerpts, line);
}

/// One row for each line of a range, marked where marks touch it.
pub open spec fn are_marked_rows(
    scene: PlanScene<'_>,
    after: Span,
    marks: Seq<Span>,
    rows: Seq<UnitRow>,
) -> bool {
    &&& rows.len() == after.end - after.start
    &&& forall|k: int|
        0 <= k < rows.len() ==> (#[trigger] rows[k]) == if touched(
            scene.pair.after.source.line_seq()[after.start + k].content_bytes,
            marks,
        ) {
            UnitRow::Marked((after.start + k + 1) as usize)
        } else {
            UnitRow::Context((after.start + k + 1) as usize)
        }
}

/// Rows of a unit with payload changes: edits as replacements, other lines with their marks.
///
/// Where edits compete for a line or modified lines spread, and only there, the whole region is
/// planned by lines.
pub fn plan_payload(
    scene: &PlanScene<'_>,
    unit: &MatchedUnit,
    dependents: &PresentationDependents,
    comments: Vec<LineEdit>,
    basis: AnchorBasis,
    tokens: EditTokens,
) -> (excerpts: Vec<Excerpt>)
    requires
        scene.wf(),
        scene.unit_fits(*unit),
        dependents.wf(),
        edits_fit(*scene, comments@),
    ensures
        excerpts_fit(*scene, excerpts@),
        exists|edits: Seq<LineEdit>| #[trigger]
            are_payload_edits(*scene, *unit, *dependents, comments@, edits) && (if edits_compete(
                edits,
            ) || payload_spreads(*scene, *unit, *dependents) {
                unit_rows_accounted(*scene, *unit, excerpts@) && unit_drawn(
                    *scene,
                    *unit,
                    basis,
                    excerpts@,
                )
            } else {
                payload_drawn(*scene, *unit, *dependents, comments@, tokens, excerpts@)
                    && payload_woven(*scene, *unit, *dependents, edits, excerpts@)
            }),
{
    let before = zero_based_lines(&scene.pair.before, unit.before);
    let after = zero_based_lines(&scene.pair.after, unit.after);
    let mut edits = comments;
    let ghost given = edits@;
    let mut payload = modified_payload_edits(scene, unit, dependents);
    let ghost modified = payload@;
    let spread = edits_spread(scene, unit, &payload);
    proof {
        lemma_payload_spreads(*scene, *unit, *dependents, modified);
    }
    edits.append(&mut payload);
    proof {
        assert(edits@ =~= given + modified);
        assert forall|k: int| 0 <= k < edits@.len() implies (#[trigger] edits@[k]).fits(
            scene.before_count(),
            scene.after_count(),
        ) by {
            if k >= given.len() {
                assert(edits@[k] == modified[k - given.len()]);
            }
        }
    }
    let before_marks = changed_leaves(scene, unit, dependents, true);
    let ghost old_marks = before_marks@;
    let after_marks = changed_leaves(scene, unit, dependents, false);
    let ghost joined = edits@;
    append_fully_marked(
        scene,
        &mut edits,
        before,
        &before_marks,
        true,
        Ghost(*unit),
        Ghost(after_marks@),
    );
    let ghost first = edits@;
    append_fully_marked(
        scene,
        &mut edits,
        after,
        &after_marks,
        false,
        Ghost(*unit),
        Ghost(before_marks@),
    );
    let ghost marked = edits@;
    let edits = deduplicate_line_edits(edits);
    proof {
        assert forall|k: int| 0 <= k < edits@.len() implies (#[trigger] edits@[k]).fits(
            scene.before_count(),
            scene.after_count(),
        ) by {
            assert(edits@.contains(edits@[k]));
            let i = choose|i: int| 0 <= i < marked.len() && marked[i] == edits@[k];
            assert(marked[i].fits(scene.before_count(), scene.after_count()));
        }
        assert forall|edit: LineEdit| joined.contains(edit) implies #[trigger] edits@.contains(
            edit,
        ) by {
            assert(first.contains(edit));
            assert(marked.contains(edit));
        }
    }
    let composites = scene.graph.tree.unit_composites(unit);
    proof {
        assert forall|k: int| 0 <= k < composites@.len() implies scene.graph.tree.composites@.contains(
            #[trigger] composites@[k],
        ) by {
            assert(composites@[k] == scene.graph.tree.composites@[unit.composites.start + k]);
        }
    }
    proof {
        lemma_payload_edits(
            *scene,
            *unit,
            *dependents,
            given,
            modified,
            before_marks@,
            after_marks@,
            first,
            marked,
            edits@,
        );
    }
    if spread || line_edits_compete_for_source_rows(&edits) {
        let excerpts = plan_line_region(
            scene,
            before,
            after,
            composites,
            Some(unit.after),
            basis,
        );
        assert(unit_drawn(*scene, *unit, basis, excerpts@));
        return excerpts;
    }
    let retained = retained_regions(scene, composites, before, after);
    let ghost settled = edits@;
    let edits = expand_line_edits_through_weak_rows(scene, &retained, edits);
    let base = marked_rows(scene, after, &after_marks);
    let rows = interleave(scene, &base, after.start, &edits);
    let ghost current = after_marks@;
    let ghost given_tokens = tokens;
    let marks = RowMarks { current: after_marks, removed: tokens.removed, added: tokens.added };
    let excerpts = select_review_excerpts(scene, unit.after, &rows, &marks);
    proof {
        assert(excerpts_drawn(*scene, excerpts@, rows@, marks));
        assert(draws_tokens(*scene, excerpts@, given_tokens));
        lemma_edits_shown(edits@, rows@, excerpts@);
        assert forall|edit: LineEdit| given.contains(edit) implies #[trigger] edits@.contains(
            edit,
        ) by {
            let k = choose|k: int| 0 <= k < given.len() && given[k] == edit;
            assert(joined[k] == edit);
            assert(joined.contains(edit));
            assert(settled.contains(edit));
        }
        assert forall|edit: LineEdit| modified.contains(edit) implies #[trigger] edits@.contains(
            edit,
        ) by {
            let k = choose|k: int| 0 <= k < modified.len() && modified[k] == edit;
            assert(joined[given.len() + k] == edit);
            assert(joined.contains(edit));
            assert(settled.contains(edit));
        }
        lemma_lists_more(*scene, *unit, *dependents, false, modified, edits@);
        assert forall|row: int|
            row_span(scene.pair.after, unit.after as int).has(row) && #[trigger] row_unpartnered(
                scene.pair.after,
                scene.graph.tree.leaves.after@,
                unit.after as int,
                row,
            ) implies current_line_shown(excerpts@, (row + 1) as usize) by {
            lemma_current_row_shown(*scene, *unit, current, base@, rows@, edits@, excerpts@, row);
        }
        assert(edits_shown(edits@, excerpts@));
        assert(payload_drawn(*scene, *unit, *dependents, given, given_tokens, excerpts@));
        assert(are_payload_edits(*scene, *unit, *dependents, given, settled));
        assert(claims_woven(base@, after.start as int, edits@, excerpts@)) by {
            reveal(claims_woven);
        }
        assert(composites@ =~= scene.graph.tree.composites@.subrange(
            unit.composites.start as int,
            unit.composites.end as int,
        ));
        assert(widens(*scene, retained@, settled, edits@));
        assert(marks_woven(*scene, *unit, current, settled, excerpts@));
        assert(are_leaf_marks(*scene, *unit, *dependents, old_marks, current));
    }
    excerpts
}

/// The deduplicated edits are those of the unit.
proof fn lemma_payload_edits(
    scene: PlanScene<'_>,
    unit: MatchedUnit,
    dependents: PresentationDependents,
    given: Seq<LineEdit>,
    modified: Seq<LineEdit>,
    old_marks: Seq<Span>,
    new_marks: Seq<Span>,
    first: Seq<LineEdit>,
    marked: Seq<LineEdit>,
    edits: Seq<LineEdit>,
)
    requires
        edits_ascend(edits),
        lists_links(scene, unit, dependents, false, modified),
        come_from_links(scene, unit, dependents, false, modified),
        are_leaf_marks(scene, unit, dependents, old_marks, new_marks),
        all_listed(given + modified, first),
        all_listed(first, marked),
        forall|edit: LineEdit| #[trigger]
            first.contains(edit) ==> (given + modified).contains(edit) || is_filled_edit(
                scene,
                unit,
                old_marks,
                new_marks,
                edit,
            ),
        forall|edit: LineEdit| #[trigger]
            marked.contains(edit) ==> first.contains(edit) || is_filled_edit(
                scene,
                unit,
                old_marks,
                new_marks,
                edit,
            ),
        forall|edit: LineEdit| #[trigger] edits.contains(edit) <==> marked.contains(edit),
    ensures
        are_payload_edits(scene, unit, dependents, given, edits),
{
    let joined = given + modified;
    assert forall|edit: LineEdit| joined.contains(edit) implies #[trigger] edits.contains(edit) by {
        assert(first.contains(edit));
        assert(marked.contains(edit));
    }
    assert forall|edit: LineEdit| given.contains(edit) implies #[trigger] edits.contains(edit) by {
        let k = choose|k: int| 0 <= k < given.len() && given[k] == edit;
        assert(joined[k] == edit);
        assert(joined.contains(edit));
    }
    assert forall|edit: LineEdit| modified.contains(edit) implies #[trigger] edits.contains(
        edit,
    ) by {
        let k = choose|k: int| 0 <= k < modified.len() && modified[k] == edit;
        assert(joined[given.len() + k] == edit);
        assert(joined.contains(edit));
    }
    lemma_lists_more(scene, unit, dependents, false, modified, edits);
    assert forall|edit: LineEdit| #[trigger] edits.contains(edit) implies given.contains(edit)
        || is_link_edit(scene, unit, dependents, false, edit) || is_filled_edit(
        scene,
        unit,
        old_marks,
        new_marks,
        edit,
    ) by {
        assert(marked.contains(edit));
        if !is_filled_edit(scene, unit, old_marks, new_marks, edit) {
            assert(first.contains(edit));
            assert(joined.contains(edit));
            let k = choose|k: int| 0 <= k < joined.len() && joined[k] == edit;
            if k < given.len() {
                assert(given[k] == edit);
            } else {
                assert(modified[k - given.len()] == edit);
                assert(modified.contains(edit));
            }
        }
    }
}

/// Edits of all old rows that lost payload, once shown, show what the unit lost.
pub proof fn lemma_lost_rows_shown(
    scene: PlanScene<'_>,
    unit: MatchedUnit,
    marks: Seq<Span>,
    given: Seq<LineEdit>,
    edits: Seq<LineEdit>,
    excerpts: Seq<Excerpt>,
)
    requires
        marks_unpartnered(
            scene.pair.before,
            scene.graph.tree.leaves.before@,
            unit.before as int,
            marks,
        ),
        forall|row: int|
            row_span(scene.pair.before, unit.before as int).has(row) && touched(
                (#[trigger] scene.pair.before.source.line_seq()[row]).content_bytes,
                marks,
            ) ==> given.contains(LineEdit { before: Some((row + 1) as usize), after: None }),
        all_listed(given, edits),
        edits_shown(edits, excerpts),
        current_rows_shown(scene, unit, excerpts),
    ensures
        payload_rows_shown(scene, unit, excerpts),
{
    let tree = scene.pair.before;
    assert forall|row: int|
        row_span(tree, unit.before as int).has(row) && #[trigger] row_unpartnered(
            tree,
            scene.graph.tree.leaves.before@,
            unit.before as int,
            row,
        ) implies old_line_shown(excerpts, (row + 1) as usize) by {
        let id = choose|id: int|
            tree.in_subtree(unit.before as int, id) && is_significant(#[trigger] tree.nodes@[id])
                && scene.graph.tree.leaves.before@[id] is None
                && crate::correspondence::geometry::spans_meet(
                tree.nodes@[id].bytes,
                tree.source.line_seq()[row].content_bytes,
            );
        let at = choose|at: int| 0 <= at < marks.len() && marks[at] == tree.nodes@[id].bytes;
        assert(touched(tree.source.line_seq()[row].content_bytes, marks));
        let edit = LineEdit { before: Some((row + 1) as usize), after: None };
        assert(given.contains(edit));
        assert(edits.contains(edit));
        let k = choose|k: int| 0 <= k < edits.len() && edits[k] == edit;
        assert(row_shown_somewhere(excerpts, UnitRow::Edit(edits[k])));
    }
}

/// Every current row that holds payload without a partner is shown as changed.
pub open spec fn current_rows_shown(
    scene: PlanScene<'_>,
    unit: MatchedUnit,
    excerpts: Seq<Excerpt>,
) -> bool {
    forall|row: int|
        row_span(scene.pair.after, unit.after as int).has(row) && #[trigger] row_unpartnered(
            scene.pair.after,
            scene.graph.tree.leaves.after@,
            unit.after as int,
            row,
        ) ==> current_line_shown(excerpts, (row + 1) as usize)
}

proof fn lemma_current_row_shown(
    scene: PlanScene<'_>,
    unit: MatchedUnit,
    marks: Seq<Span>,
    base: Seq<UnitRow>,
    rows: Seq<UnitRow>,
    edits: Seq<LineEdit>,
    excerpts: Seq<Excerpt>,
    row: int,
)
    requires
        marks_unpartnered(
            scene.pair.after,
            scene.graph.tree.leaves.after@,
            unit.after as int,
            marks,
        ),
        row_span(scene.pair.after, unit.after as int).has(row),
        row_unpartnered(
            scene.pair.after,
            scene.graph.tree.leaves.after@,
            unit.after as int,
            row,
        ),
        base.len() == row_span(scene.pair.after, unit.after as int).end - row_span(
            scene.pair.after,
            unit.after as int,
        ).start,
        forall|k: int|
            0 <= k < base.len() ==> (#[trigger] base[k]) == if touched(
                scene.pair.after.source.line_seq()[row_span(
                    scene.pair.after,
                    unit.after as int,
                ).start + k].content_bytes,
                marks,
            ) {
                UnitRow::Marked(
                    (row_span(scene.pair.after, unit.after as int).start + k + 1) as usize,
                )
            } else {
                UnitRow::Context(
                    (row_span(scene.pair.after, unit.after as int).start + k + 1) as usize,
                )
            },
        edits_in_rows(edits, rows),
        forall|k: int|
            0 <= k < base.len() && !claims_after(
                edits,
                (row_span(scene.pair.after, unit.after as int).start + k + 1) as usize,
            ) ==> rows.contains(#[trigger] base[k]),
        forall|k: int|
            0 <= k < rows.len() && !((#[trigger] rows[k]) is Context) ==> row_shown_somewhere(
                excerpts,
                rows[k],
            ),
    ensures
        current_line_shown(excerpts, (row + 1) as usize),
{
    let start = row_span(scene.pair.after, unit.after as int).start;
    let tree = scene.pair.after;
    let id = choose|id: int|
        tree.in_subtree(unit.after as int, id) && is_significant(#[trigger] tree.nodes@[id])
            && scene.graph.tree.leaves.after@[id] is None
            && crate::correspondence::geometry::spans_meet(
            tree.nodes@[id].bytes,
            tree.source.line_seq()[row].content_bytes,
        );
    let mark = tree.nodes@[id].bytes;
    let at = choose|at: int| 0 <= at < marks.len() && marks[at] == mark;
    assert(touched(tree.source.line_seq()[row].content_bytes, marks));
    let k = row - start;
    assert(base[k] == UnitRow::Marked((row + 1) as usize));
    if claims_after(edits, (row + 1) as usize) {
        let i = choose|i: int|
            0 <= i < edits.len() && (#[trigger] edits[i]).after == Some((row + 1) as usize);
        let shown = UnitRow::Edit(edits[i]);
        assert(rows.contains(shown));
        let j = choose|j: int| 0 <= j < rows.len() && rows[j] == shown;
        assert(row_shown_somewhere(excerpts, rows[j]));
    } else {
        assert(rows.contains(base[k]));
        let j = choose|j: int| 0 <= j < rows.len() && rows[j] == base[k];
        assert(row_shown_somewhere(excerpts, rows[j]));
    }
}

/// Every row of the unit is shown, or unchanged.
pub open spec fn unit_rows_accounted(
    scene: PlanScene<'_>,
    unit: MatchedUnit,
    excerpts: Seq<Excerpt>,
) -> bool {
    &&& forall|row: int|
        row_span(scene.pair.before, unit.before as int).has(row) ==> #[trigger] old_row_accounted(
            scene,
            excerpts,
            row,
        )
    &&& forall|row: int|
        row_span(scene.pair.after, unit.after as int).has(row) ==> #[trigger] new_row_accounted(
            scene,
            excerpts,
            row,
        )
    &&& exists|basis: AnchorBasis| #[trigger] unit_drawn(scene, unit, basis, excerpts)
}

/// The excerpts draw the rows of the unit, around the subtrees that are matched in it.
pub open spec fn unit_drawn(
    scene: PlanScene<'_>,
    unit: MatchedUnit,
    basis: AnchorBasis,
    excerpts: Seq<Excerpt>,
) -> bool {
    region_drawn(
        scene,
        row_span(scene.pair.before, unit.before as int),
        row_span(scene.pair.after, unit.after as int),
        scene.graph.tree.composites@.subrange(
            unit.composites.start as int,
            unit.composites.end as int,
        ),
        basis,
        excerpts,
    ) && region_explained(
        scene,
        row_span(scene.pair.before, unit.before as int),
        row_span(scene.pair.after, unit.after as int),
        scene.graph.tree.composites@.subrange(
            unit.composites.start as int,
            unit.composites.end as int,
        ),
        Some(unit.after),
        basis,
        excerpts,
    )
}

/// Current rows of a unit, told apart by whether a mark touches them.
fn marked_rows(scene: &PlanScene<'_>, after: Span, marks: &Vec<Span>) -> (rows: Vec<UnitRow>)
    requires
        scene.wf(),
        after.start <= after.end <= scene.after_count(),
    ensures
        rows@.len() == after.end - after.start,
        rows_fit(*scene, rows@),
        forall|k: int|
            0 <= k < rows@.len() ==> (#[trigger] rows@[k]) == if touched(
                scene.pair.after.source.line_seq()[after.start + k].content_bytes,
                marks@,
            ) {
                UnitRow::Marked((after.start + k + 1) as usize)
            } else {
                UnitRow::Context((after.start + k + 1) as usize)
            },
{
    proof {
        scene.pair.after.source.lemma_line_count();
    }
    let mut rows: Vec<UnitRow> = Vec::new();
    let mut row = after.start;
    while row < after.end
        invariant
            after.start <= row <= after.end <= scene.after_count() < usize::MAX,
            rows@.len() == row - after.start,
            rows_fit(*scene, rows@),
            forall|k: int|
                0 <= k < rows@.len() ==> (#[trigger] rows@[k]) == if touched(
                    scene.pair.after.source.line_seq()[after.start + k].content_bytes,
                    marks@,
                ) {
                    UnitRow::Marked((after.start + k + 1) as usize)
                } else {
                    UnitRow::Context((after.start + k + 1) as usize)
                },
        decreases after.end - row,
    {
        let content = scene.pair.after.source.lines()[row].content_bytes;
        rows.push(
            if touches(content, marks) {
                UnitRow::Marked(row + 1)
            } else {
                UnitRow::Context(row + 1)
            },
        );
        row += 1;
    }
    rows
}

/// Some mark shares a byte with the content.
pub open spec fn touched(content: Span, marks: Seq<Span>) -> bool {
    exists|k: int|
        0 <= k < marks.len() && crate::correspondence::geometry::spans_meet(
            #[trigger] marks[k],
            content,
        )
}

fn touches(content: Span, marks: &Vec<Span>) -> (result: bool)
    ensures
        result == touched(content, marks@),
{
    let mut index: usize = 0;
    while index < marks.len()
        invariant
            index <= marks@.len(),
            forall|k: int|
                0 <= k < index ==> !crate::correspondence::geometry::spans_meet(
                    #[trigger] marks@[k],
                    content,
                ),
        decreases marks@.len() - index,
    {
        if spans_overlap(marks[index], content) {
            assert(crate::correspondence::geometry::spans_meet(marks@[index as int], content));
            return true;
        }
        index += 1;
    }
    false
}

} // verus!

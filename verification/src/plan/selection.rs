//! Selection of the rows of one unit.

use crate::context::{
    are_open_runs, are_runs, breadcrumb_halo_indices, context_gap_fits_halos, context_halo_range,
    include_range, is_row, lemma_runs_step, ranges_apart, review_selection_ranges, selects,
};
use crate::correspondence::scopes::{ascending, insert_ascending};
use crate::plan::alignment_of;
use crate::plan::excerpts::{
    append_hierarchy, displays, excerpts_fit, has_place, leads_in_any, lemma_shows_scopes,
    shows_scopes, shows_scopes_of_old, structural_context_lines, Excerpt,
};
use crate::plan::rows::{
    coverage_fits, draws_row, include_line, row_change, shows_row, RowMarks, UnitRow,
};
use crate::plan::scene::PlanScene;
use crate::plan::tally::{
    change_weight, excerpt_weight, excerpts_tally, lemma_between, lemma_picked_gap,
    lemma_picked_run, lemma_row_claims, lemma_run_join, lemma_run_nothing, lemma_tally_plain,
    lemma_tally_push, lemma_total_join, lemma_total_push, picked_total, row_weight, rows_tally,
    run_total, tally, Claim,
};
use crate::review::{changes_fit, is_line, LineCoverage, SourceChange};
use crate::span::Span;
use crate::syntax::NodeId;
use vstd::prelude::*;

verus! {

/// Every row names existing lines.
pub open spec fn rows_fit(scene: PlanScene<'_>, rows: Seq<UnitRow>) -> bool {
    forall|k: int|
        0 <= k < rows.len() ==> (#[trigger] rows[k]).fits(
            scene.before_count(),
            scene.after_count(),
        )
}

/// Some change shows the row.
pub open spec fn row_shown(changes: Seq<SourceChange>, row: UnitRow) -> bool {
    exists|k: int| 0 <= k < changes.len() && shows_row(#[trigger] changes[k], row)
}

/// The change shows an unchanged line, stands for lines left out, or is what becomes of one of the
/// rows under the marks.
pub open spec fn is_drawn(
    scene: PlanScene<'_>,
    change: SourceChange,
    rows: Seq<UnitRow>,
    marks: RowMarks,
) -> bool {
    ||| change is Context
    ||| change is Elision
    ||| exists|k: int| 0 <= k < rows.len() && draws_row(scene, change, #[trigger] rows[k], marks)
}

/// Every change is drawn from the rows.
#[verifier::opaque]
pub open spec fn are_drawn(
    scene: PlanScene<'_>,
    changes: Seq<SourceChange>,
    rows: Seq<UnitRow>,
    marks: RowMarks,
) -> bool {
    forall|c: int|
        0 <= c < changes.len() ==> is_drawn(scene, #[trigger] changes[c], rows, marks)
}

/// One more drawn change.
proof fn lemma_drawn_push(
    scene: PlanScene<'_>,
    earlier: Seq<SourceChange>,
    changes: Seq<SourceChange>,
    rows: Seq<UnitRow>,
    marks: RowMarks,
)
    requires
        are_drawn(scene, earlier, rows, marks),
        earlier.is_prefix_of(changes),
        forall|c: int|
            earlier.len() <= c < changes.len() ==> is_drawn(scene, #[trigger] changes[c], rows, marks),
    ensures
        are_drawn(scene, changes, rows, marks),
{
    reveal(are_drawn);
    assert forall|c: int| 0 <= c < changes.len() implies is_drawn(
        scene,
        #[trigger] changes[c],
        rows,
        marks,
    ) by {
        if c < earlier.len() {
            assert(changes[c] == earlier[c]);
        }
    }
}

/// Every change of every excerpt is drawn from the rows.
pub open spec fn excerpts_drawn(
    scene: PlanScene<'_>,
    excerpts: Seq<Excerpt>,
    rows: Seq<UnitRow>,
    marks: RowMarks,
) -> bool {
    forall|e: int|
        0 <= e < excerpts.len() ==> are_drawn(
            scene,
            (#[trigger] excerpts[e]).changes@,
            rows,
            marks,
        )
}

/// Further changes hide no row.
proof fn lemma_row_still_shown(
    earlier: Seq<SourceChange>,
    later: Seq<SourceChange>,
    row: UnitRow,
)
    requires
        earlier.is_prefix_of(later),
        row_shown(earlier, row),
    ensures
        row_shown(later, row),
{
    let k = choose|k: int| 0 <= k < earlier.len() && shows_row(#[trigger] earlier[k], row);
    assert(later[k] == earlier[k]);
}

/// Some excerpt shows the row.
pub open spec fn row_shown_somewhere(excerpts: Seq<Excerpt>, row: UnitRow) -> bool {
    exists|k: int| 0 <= k < excerpts.len() && row_shown((#[trigger] excerpts[k]).changes@, row)
}

proof fn lemma_row_shown_push(excerpts: Seq<Excerpt>, excerpt: Excerpt, row: UnitRow)
    requires
        row_shown_somewhere(excerpts, row) || row_shown(excerpt.changes@, row),
    ensures
        row_shown_somewhere(excerpts.push(excerpt), row),
{
    let all = excerpts.push(excerpt);
    if row_shown_somewhere(excerpts, row) {
        let k = choose|k: int|
            0 <= k < excerpts.len() && row_shown((#[trigger] excerpts[k]).changes@, row);
        assert(all[k] == excerpts[k]);
    } else {
        assert(all[excerpts.len() as int] == excerpt);
    }
}

/// Current lines of context rows, with their positions.
struct ContextRows {
    lines: Vec<usize>,
    positions: Vec<usize>,
}

impl ContextRows {
    spec fn ok(self, rows: Seq<UnitRow>) -> bool {
        &&& self.lines@.len() == self.positions@.len()
        &&& forall|k: int|
            0 <= k < self.positions@.len() ==> (#[trigger] self.positions@[k]) < rows.len()
                && rows[self.positions@[k] as int] == UnitRow::Context(self.lines@[k])
    }

    /// Every context row is listed.
    spec fn lists_all(self, rows: Seq<UnitRow>, end: int) -> bool {
        forall|k: int|
            0 <= k < end && ((#[trigger] rows[k]) is Context) ==> self.lines@.contains(rows[k]->Context_0)
    }

    /// List the context rows.
    fn new(rows: &Vec<UnitRow>) -> (context: ContextRows)
        ensures
            context.ok(rows@),
            context.lists_all(rows@, rows@.len() as int),
    {
        let mut context = ContextRows { lines: Vec::new(), positions: Vec::new() };
        let mut index: usize = 0;
        while index < rows.len()
            invariant
                index <= rows@.len(),
                context.ok(rows@),
                context.lists_all(rows@, index as int),
            decreases rows@.len() - index,
        {
            let ghost listed = context.lines@;
            if let UnitRow::Context(line) = rows[index] {
                context.lines.push(line);
                context.positions.push(index);
                assert(context.lines@[listed.len() as int] == line);
            }
            proof {
                assert forall|k: int| 0 <= k < index + 1 && (
                #[trigger] rows@[k]) is Context implies context.lines@.contains(
                    rows@[k]->Context_0,
                ) by {
                    if k < index {
                        assert(listed.contains(rows@[k]->Context_0));
                        let at = choose|at: int|
                            0 <= at < listed.len() && listed[at] == rows@[k]->Context_0;
                        assert(context.lines@[at] == rows@[k]->Context_0);
                    }
                }
            }
            index += 1;
        }
        context
    }

    /// Position of the context row of a line.
    fn position(&self, line: usize, Ghost(rows): Ghost<Seq<UnitRow>>) -> (position: Option<usize>)
        requires
            self.ok(rows),
        ensures
            position matches Some(position) ==> position < rows.len() && rows[position as int]
                == UnitRow::Context(line),
            ascending(self.lines@) && position is None ==> !self.lines@.contains(line),
    {
        let mut low: usize = 0;
        let mut high: usize = self.lines.len();
        while low < high
            invariant
                low <= high <= self.lines@.len(),
                ascending(self.lines@) ==> forall|k: int|
                    0 <= k < low ==> (#[trigger] self.lines@[k]) < line,
                ascending(self.lines@) ==> forall|k: int|
                    high <= k < self.lines@.len() ==> (#[trigger] self.lines@[k]) >= line,
            decreases high - low,
        {
            let middle = low + (high - low) / 2;
            if self.lines[middle] < line {
                low = middle + 1;
            } else {
                high = middle;
            }
        }
        if low < self.lines.len() && self.lines[low] == line {
            assert(self.positions@[low as int] < rows.len());
            return Some(self.positions[low]);
        }
        proof {
            if ascending(self.lines@) && self.lines@.contains(line) {
                let k = choose|k: int| 0 <= k < self.lines@.len() && self.lines@[k] == line;
                if k > low {
                    assert(self.lines@[low as int] < self.lines@[k]);
                }
            }
        }
        None
    }
}

/// Old line of a row, if it has one.
pub open spec fn old_line(row: UnitRow) -> Option<usize> {
    match row {
        UnitRow::Edit(edit) => edit.before,
        _ => None,
    }
}

/// The row is at the current line, or its old line has its place there.
pub open spec fn row_stands_on(scene: PlanScene<'_>, row: UnitRow, line: usize) -> bool {
    row.after_line_of() == Some(line) || (old_line(row) matches Some(before_line) && alignment_of(
        *scene.pair,
        *scene.graph,
    ).is_anchor_line(before_line, line))
}

/// The list holds the current line of the row, and a place of its old one.
pub open spec fn lists_row(scene: PlanScene<'_>, lines: Seq<usize>, row: UnitRow) -> bool {
    &&& row.after_line_of() matches Some(line) ==> lines.contains(line)
    &&& old_line(row) matches Some(before_line) ==> (scene.after_count() > 0 ==> has_place(
        scene,
        lines,
        before_line,
    ))
}

/// Lines at which the rows of a cluster stand in the current file.
fn cluster_lines(scene: &PlanScene<'_>, rows: &Vec<UnitRow>, cluster: Span) -> (lines: Vec<usize>)
    requires
        scene.wf(),
        cluster.start <= cluster.end <= rows@.len(),
    ensures
        ascending(lines@),
        forall|line: usize| #[trigger]
            lines@.contains(line) ==> exists|k: int|
                cluster.has(k) && row_stands_on(*scene, #[trigger] rows@[k], line),
        forall|k: int| cluster.has(k) ==> lists_row(*scene, lines@, #[trigger] rows@[k]),
{
    let alignment = scene.alignment();
    let mut lines: Vec<usize> = Vec::new();
    let mut index = cluster.start;
    while index < cluster.end
        invariant
            alignment.wf(),
            cluster.start <= index <= cluster.end <= rows@.len(),
            ascending(lines@),
            alignment == alignment_of(*scene.pair, *scene.graph),
            alignment.after_lines == scene.after_count(),
            forall|line: usize| #[trigger]
                lines@.contains(line) ==> exists|k: int|
                    cluster.has(k) && row_stands_on(*scene, #[trigger] rows@[k], line),
            forall|k: int|
                cluster.start <= k < index ==> lists_row(*scene, lines@, #[trigger] rows@[k]),
        decreases cluster.end - index,
    {
        let ghost known = lines@;
        let row = rows[index];
        proof {
            assert(cluster.has(index as int));
        }
        if let Some(line) = row.after_line() {
            insert_ascending(&mut lines, line);
            assert(row_stands_on(*scene, rows@[index as int], line));
        }
        if let Some(line) = row.before_line() {
            if let Some(anchor) = alignment.current_anchor(line) {
                insert_ascending(&mut lines, anchor);
                proof {
                    assert(alignment_of(*scene.pair, *scene.graph).is_anchor_line(line, anchor));
                    assert(row_stands_on(*scene, rows@[index as int], anchor));
                    assert(has_place(*scene, lines@, line));
                }
            }
        }
        proof {
            assert forall|k: int| cluster.start <= k < index + 1 implies lists_row(
                *scene,
                lines@,
                #[trigger] rows@[k],
            ) by {
                if k < index {
                    assert(lists_row(*scene, known, rows@[k]));
                }
            }
        }
        index += 1;
    }
    lines
}

/// First current line named in a range of rows.
fn first_line(scene: &PlanScene<'_>, rows: &Vec<UnitRow>, range: Span) -> (line: Option<usize>)
    requires
        rows_fit(*scene, rows@),
        range.start <= range.end <= rows@.len(),
    ensures
        line matches Some(line) ==> is_line(line, scene.after_count()),
        line matches Some(line) ==> exists|k: int|
            range.has(k) && (#[trigger] rows@[k]).after_line_of() == Some(line) && forall|j: int|
                range.start <= j < k ==> (#[trigger] rows@[j]).after_line_of() is None,
        line is None ==> forall|k: int|
            range.has(k) ==> (#[trigger] rows@[k]).after_line_of() is None,
{
    let mut index = range.start;
    while index < range.end
        invariant
            rows_fit(*scene, rows@),
            range.start <= index <= range.end <= rows@.len(),
            forall|k: int|
                range.start <= k < index ==> (#[trigger] rows@[k]).after_line_of() is None,
        decreases range.end - index,
    {
        let row = rows[index];
        assert(rows@[index as int].fits(scene.before_count(), scene.after_count()));
        if let Some(line) = row.after_line() {
            assert(range.has(index as int));
            return Some(line);
        }
        index += 1;
    }
    None
}

/// Show a row and cover its lines.
fn append_row(
    scene: &PlanScene<'_>,
    changes: &mut Vec<SourceChange>,
    coverage: &mut LineCoverage,
    row: UnitRow,
    marks: &RowMarks,
)
    requires
        scene.wf(),
        row.fits(scene.before_count(), scene.after_count()),
        changes_fit(old(changes)@, scene.before_count(), scene.after_count()),
        coverage_fits(*old(coverage), scene.before_count(), scene.after_count()),
    ensures
        changes_fit(final(changes)@, scene.before_count(), scene.after_count()),
        coverage_fits(*final(coverage), scene.before_count(), scene.after_count()),
        old(changes)@.is_prefix_of(final(changes)@),
        final(changes)@.len() == old(changes)@.len() + 1,
        draws_row(*scene, final(changes)@.last(), row, *marks),
        shows_row(final(changes)@.last(), row),
        row_shown(final(changes)@, row),
{
    proof {
        scene.pair.before.source.lemma_line_count();
        scene.pair.after.source.lemma_line_count();
    }
    let change = row_change(scene, row, marks);
    changes.push(change);
    assert(shows_row(changes@[changes@.len() - 1], row));
    if let Some(line) = row.before_line() {
        include_line(&mut coverage.before, line);
    }
    if let Some(line) = row.after_line() {
        include_line(&mut coverage.after, line);
    }
}

/// Append the rows of all selected ranges, with an elision where current lines are left out.
#[verifier::rlimit(60)]
#[verifier::spinoff_prover]
fn append_ranges(
    scene: &PlanScene<'_>,
    rows: &Vec<UnitRow>,
    ranges: &Vec<Span>,
    marks: &RowMarks,
    changes: &mut Vec<SourceChange>,
    coverage: &mut LineCoverage,
)
    requires
        scene.wf(),
        rows_fit(*scene, rows@),
        forall|k: int|
            0 <= k < ranges@.len() ==> (#[trigger] ranges@[k]).start < ranges@[k].end
                <= rows@.len(),
        ranges_apart(ranges@),
        changes_fit(old(changes)@, scene.before_count(), scene.after_count()),
        coverage_fits(*old(coverage), scene.before_count(), scene.after_count()),
        are_drawn(*scene, old(changes)@, rows@, *marks),
    ensures
        changes_fit(final(changes)@, scene.before_count(), scene.after_count()),
        coverage_fits(*final(coverage), scene.before_count(), scene.after_count()),
        are_drawn(*scene, final(changes)@, rows@, *marks),
        forall|i: int|
            0 <= i < rows@.len() && selects(ranges@, i) ==> row_shown(
                final(changes)@,
                #[trigger] rows@[i],
            ),
        forall|claim: Claim| #[trigger]
            tally(final(changes)@, claim) == tally(old(changes)@, claim) + picked_total(
                row_weight(rows@, claim),
                ranges@,
                rows@.len() as int,
            ),
{
    proof {
        scene.pair.after.source.lemma_line_count();
    }
    let mut previous: Option<usize> = None;
    let mut index: usize = 0;
    while index < ranges.len()
        invariant
            scene.wf(),
            scene.after_count() < usize::MAX,
            rows_fit(*scene, rows@),
            forall|k: int|
                0 <= k < ranges@.len() ==> (#[trigger] ranges@[k]).start < ranges@[k].end
                    <= rows@.len(),
            index <= ranges@.len(),
            ranges_apart(ranges@),
            forall|claim: Claim| #[trigger]
                tally(changes@, claim) == tally(old(changes)@, claim) + picked_total(
                    row_weight(rows@, claim),
                    ranges@,
                    if index == 0 {
                        0
                    } else {
                        ranges@[index - 1].end as int
                    },
                ),
            previous matches Some(line) ==> is_line(line, scene.after_count()),
            changes_fit(changes@, scene.before_count(), scene.after_count()),
            coverage_fits(*coverage, scene.before_count(), scene.after_count()),
            are_drawn(*scene, changes@, rows@, *marks),
            forall|i: int|
                0 <= i < rows@.len() && selects(ranges@.take(index as int), i) ==> row_shown(
                    changes@,
                    #[trigger] rows@[i],
                ),
        decreases ranges@.len() - index,
    {
        let range = ranges[index];
        let ghost before_range = changes@;
        assert(ranges@[index as int].start < ranges@[index as int].end);
        let next = first_line(scene, rows, range);
        if let (Some(last), Some(line)) = (previous, next) {
            if last + 1 < line {
                let omitted = Span { start: last + 1, end: line };
                changes.push(
                    SourceChange::Elision(LineCoverage { before: None, after: Some(omitted) }),
                );
                include_range(&mut coverage.after, Some(omitted));
                previous = Some(last + 1);
                proof {
                    lemma_drawn_push(*scene, before_range, changes@, rows@, *marks);
                }
            }
        }
        proof {
            assert forall|claim: Claim| #[trigger]
                tally(changes@, claim) == tally(old(changes)@, claim) + picked_total(
                    row_weight(rows@, claim),
                    ranges@,
                    range.start as int,
                ) by {
                let from = if index == 0 {
                    0
                } else {
                    ranges@[index - 1].end as int
                };
                let weight = row_weight(rows@, claim);
                assert(tally(before_range, claim) == tally(old(changes)@, claim) + picked_total(
                    weight,
                    ranges@,
                    from,
                ));
                if index > 0 {
                    assert(ranges@[index - 1].end < ranges@[index as int].start);
                }
                assert forall|i: int| from <= i < range.start implies !#[trigger] selects(
                    ranges@,
                    i,
                ) by {
                    lemma_between(ranges@, index as int, i);
                }
                lemma_picked_gap(weight, ranges@, from, range.start as int);
                if changes@.len() > before_range.len() {
                    let fold = changes@[before_range.len() as int];
                    assert(changes@ =~= before_range.push(fold));
                    lemma_tally_push(before_range, fold, claim);
                } else {
                    assert(changes@ =~= before_range);
                }
            }
        }
        let mut at = range.start;
        while at < range.end
            invariant
                scene.wf(),
                rows_fit(*scene, rows@),
                index < ranges@.len(),
                ranges@[index as int] == range,
                forall|claim: Claim| #[trigger]
                    tally(changes@, claim) == tally(old(changes)@, claim) + picked_total(
                        row_weight(rows@, claim),
                        ranges@,
                        at as int,
                    ),
                range.start <= at <= range.end <= rows@.len(),
                previous matches Some(line) ==> is_line(line, scene.after_count()),
                changes_fit(changes@, scene.before_count(), scene.after_count()),
                coverage_fits(*coverage, scene.before_count(), scene.after_count()),
                before_range.is_prefix_of(changes@),
                are_drawn(*scene, changes@, rows@, *marks),
                forall|i: int|
                    range.start <= i < at ==> row_shown(changes@, #[trigger] rows@[i]),
            decreases range.end - at,
        {
            let ghost earlier = changes@;
            let row = rows[at];
            assert(rows@[at as int].fits(scene.before_count(), scene.after_count()));
            append_row(scene, changes, coverage, row, marks);
            proof {
                assert(ranges@[index as int].has(at as int));
                assert(selects(ranges@, at as int));
                assert forall|claim: Claim| #[trigger]
                    tally(changes@, claim) == tally(old(changes)@, claim) + picked_total(
                        row_weight(rows@, claim),
                        ranges@,
                        at + 1,
                    ) by {
                    assert(tally(earlier, claim) == tally(old(changes)@, claim) + picked_total(
                        row_weight(rows@, claim),
                        ranges@,
                        at as int,
                    ));
                    assert(changes@ =~= earlier.push(changes@.last()));
                    lemma_tally_push(earlier, changes@.last(), claim);
                    lemma_row_claims(
                        changes@.last(),
                        rows@[at as int],
                        claim,
                        scene.before_count(),
                        scene.after_count(),
                    );
                }
                assert(draws_row(*scene, changes@.last(), rows@[at as int], *marks));
                assert(is_drawn(*scene, changes@.last(), rows@, *marks));
                lemma_drawn_push(*scene, earlier, changes@, rows@, *marks);
            }
            if let Some(line) = row.after_line() {
                previous = Some(line);
            }
            proof {
                assert forall|i: int| range.start <= i < at + 1 implies row_shown(
                    changes@,
                    #[trigger] rows@[i],
                ) by {
                    if i < at {
                        lemma_row_still_shown(earlier, changes@, rows@[i]);
                    }
                }
            }
            at += 1;
        }
        proof {
            let shorter = ranges@.take(index as int);
            let longer = ranges@.take(index + 1);
            assert forall|i: int| 0 <= i < rows@.len() && selects(longer, i) implies row_shown(
                changes@,
                #[trigger] rows@[i],
            ) by {
                let k = choose|k: int| 0 <= k < longer.len() && (#[trigger] longer[k]).has(i);
                if k < index {
                    assert(shorter[k].has(i));
                    assert(selects(shorter, i));
                    lemma_row_still_shown(before_range, changes@, rows@[i]);
                }
            }
        }
        index += 1;
    }
    assert(ranges@.take(index as int) =~= ranges@);
    proof {
        assert forall|claim: Claim| #[trigger]
            tally(changes@, claim) == tally(old(changes)@, claim) + picked_total(
                row_weight(rows@, claim),
                ranges@,
                rows@.len() as int,
            ) by {
            let from = if index == 0 {
                0
            } else {
                ranges@[index - 1].end as int
            };
            assert forall|i: int| from <= i < rows@.len() implies !#[trigger] selects(
                ranges@,
                i,
            ) by {
                lemma_between(ranges@, ranges@.len() as int, i);
            }
            lemma_picked_gap(row_weight(rows@, claim), ranges@, from, rows@.len() as int);
        }
    }
}

/// Every row from one to the other, but for the run itself, is unchanged.
pub open spec fn rows_quiet_to(rows: Seq<UnitRow>, run: Span, at: int) -> bool {
    forall|i: int|
        at <= i < run.start || run.end <= i <= at ==> (#[trigger] rows[i]) is Context
}

/// The excerpt shows the run, up to three unchanged rows on either side of it, and the starts of
/// the syntax around its rows.
pub open spec fn explains_rows(
    scene: PlanScene<'_>,
    root: NodeId,
    rows: Seq<UnitRow>,
    run: Span,
    changes: Seq<SourceChange>,
) -> bool {
    &&& forall|at: int|
        0 <= at < rows.len() && run.start - 3 <= at < run.end + 3 && rows_quiet_to(rows, run, at)
            ==> row_shown(changes, #[trigger] rows[at])
    &&& scene.pair.after.leaves_in_order() ==> explains_row_scopes(scene, root, rows, run, changes)
}

/// The starts of the syntax around the rows of the run are displayed.
pub open spec fn explains_row_scopes(
    scene: PlanScene<'_>,
    root: NodeId,
    rows: Seq<UnitRow>,
    run: Span,
    changes: Seq<SourceChange>,
) -> bool {
    &&& forall|at: int, signal: usize|
        run.has(at) && (#[trigger] rows[at]).after_line_of() == Some(signal)
            ==> #[trigger] shows_scopes(scene, root as int, changes, signal)
    &&& forall|at: int, before_line: usize|
        run.has(at) && old_line(#[trigger] rows[at]) == Some(before_line) && scene.after_count() > 0
            ==> #[trigger] shows_scopes_of_old(scene, root as int, changes, before_line)
}

/// Rows that are signals.
pub open spec fn row_signals(rows: Seq<UnitRow>) -> spec_fn(int) -> bool {
    |k: int| !(rows[k] is Context)
}

/// Each excerpt explains the run at its place.
pub open spec fn explain_row_runs(
    scene: PlanScene<'_>,
    root: NodeId,
    rows: Seq<UnitRow>,
    runs: Seq<Span>,
    excerpts: Seq<Excerpt>,
) -> bool {
    &&& excerpts.len() == runs.len()
    &&& forall|k: int|
        0 <= k < runs.len() ==> explains_rows(
            scene,
            root,
            rows,
            #[trigger] runs[k],
            excerpts[k].changes@,
        )
}

/// Each excerpt explains a run of the signals among the rows.
#[verifier::opaque]
pub open spec fn rows_explained(
    scene: PlanScene<'_>,
    root: NodeId,
    rows: Seq<UnitRow>,
    excerpts: Seq<Excerpt>,
) -> bool {
    exists|runs: Seq<Span>| #[trigger]
        are_runs(row_signals(rows), rows.len() as int, runs) && explain_row_runs(
            scene,
            root,
            rows,
            runs,
            excerpts,
        )
}

proof fn lemma_explain_push(
    scene: PlanScene<'_>,
    root: NodeId,
    rows: Seq<UnitRow>,
    runs: Seq<Span>,
    excerpts: Seq<Excerpt>,
    run: Span,
    excerpt: Excerpt,
)
    requires
        explain_row_runs(scene, root, rows, runs, excerpts),
        explains_rows(scene, root, rows, run, excerpt.changes@),
    ensures
        explain_row_runs(scene, root, rows, runs.push(run), excerpts.push(excerpt)),
{
    assert forall|k: int| 0 <= k < runs.push(run).len() implies explains_rows(
        scene,
        root,
        rows,
        #[trigger] runs.push(run)[k],
        excerpts.push(excerpt)[k].changes@,
    ) by {
        if k < runs.len() {
            assert(explains_rows(scene, root, rows, runs[k], excerpts[k].changes@));
        }
    }
}

/// Hierarchy of the rows of a run.
proof fn lemma_explains_row_scopes(
    scene: PlanScene<'_>,
    root: NodeId,
    rows: Seq<UnitRow>,
    run: Span,
    changes: Seq<SourceChange>,
    signals: Seq<usize>,
    hierarchy: Seq<usize>,
)
    requires
        forall|k: int| run.has(k) ==> lists_row(scene, signals, #[trigger] rows[k]),
        forall|line: usize| #[trigger]
            hierarchy.contains(line) <==> leads_in_any(
                scene.pair.after,
                root as int,
                signals,
                line,
            ),
        forall|k: int| 0 <= k < hierarchy.len() ==> displays(changes, #[trigger] hierarchy[k]),
    ensures
        explains_row_scopes(scene, root, rows, run, changes),
{
    assert forall|at: int, signal: usize|
        run.has(at) && (#[trigger] rows[at]).after_line_of() == Some(signal) implies
        #[trigger] shows_scopes(scene, root as int, changes, signal) by {
        assert(lists_row(scene, signals, rows[at]));
        lemma_shows_scopes(scene, root as int, changes, signals, hierarchy, signal);
    }
    assert forall|at: int, before_line: usize|
        run.has(at) && old_line(#[trigger] rows[at]) == Some(before_line) && scene.after_count()
            > 0 implies #[trigger] shows_scopes_of_old(
        scene,
        root as int,
        changes,
        before_line,
    ) by {
        assert(lists_row(scene, signals, rows[at]));
        let anchor = choose|anchor: usize| #[trigger]
            alignment_of(*scene.pair, *scene.graph).is_anchor_line(before_line, anchor)
                && signals.contains(anchor);
        lemma_shows_scopes(scene, root as int, changes, signals, hierarchy, anchor);
    }
}

/// The row shows an unchanged line.
pub open spec fn quiet(row: UnitRow) -> bool {
    row is Context
}

/// Rows of one cluster of signals, with their halo and their hierarchy.
#[verifier::rlimit(60)]
#[verifier::spinoff_prover]
fn select_review_excerpt(
    scene: &PlanScene<'_>,
    root: NodeId,
    rows: &Vec<UnitRow>,
    marks: &RowMarks,
    context: &ContextRows,
    cluster: Span,
) -> (excerpt: Excerpt)
    requires
        scene.wf(),
        scene.pair.after.has_node(root as int),
        rows_fit(*scene, rows@),
        context.ok(rows@),
        cluster.start < cluster.end <= rows@.len(),
    ensures
        excerpt.fits(*scene),
        are_drawn(*scene, excerpt.changes@, rows@, *marks),
        forall|k: int| cluster.has(k) ==> row_shown(excerpt.changes@, #[trigger] rows@[k]),
        explains_rows(*scene, root, rows@, cluster, excerpt.changes@),
        forall|claim: Claim| #[trigger]
            tally(excerpt.changes@, claim) == run_total(
                row_weight(rows@, claim),
                cluster.start as int,
                cluster.end as int,
            ),
{
    let is_quiet = |row: &UnitRow| -> (result: bool)
        ensures
            result == quiet(*row),
        { row.is_context() };
    let halo = context_halo_range(rows.as_slice(), cluster, is_quiet);
    let signals = cluster_lines(scene, rows, cluster);
    let hierarchy = structural_context_lines(&scene.pair.after, root, &signals);
    let context_index = |line: usize| -> (index: Option<usize>)
        ensures
            index matches Some(index) ==> index < rows@.len() && rows@[index as int] is Context,
        { context.position(line, Ghost(rows@)) };
    let breadcrumbs = breadcrumb_halo_indices(&hierarchy, context_index);
    proof {
        assert forall|k: int| 0 <= k < breadcrumbs@.len() implies (#[trigger] breadcrumbs@[k])
            < rows@.len() && rows@[breadcrumbs@[k] as int] is Context by {
            assert(is_row(context_index, breadcrumbs@[k]));
        }
        assert(rows.len() <= usize::MAX);
    }
    let is_context = |index: usize| -> (result: bool)
        ensures
            result ==> index < rows@.len() && rows@[index as int] is Context,
        { index < rows.len() && rows[index].is_context() };
    let ranges = review_selection_ranges(halo, &breadcrumbs, is_context);
    proof {
        assert forall|k: int| 0 <= k < ranges@.len() implies (#[trigger] ranges@[k]).start
            < ranges@[k].end <= rows@.len() by {
            let final_index = ranges@[k].end - 1;
            assert(ranges@[k].has(final_index));
            assert(selects(ranges@, final_index));
            if breadcrumbs@.contains(final_index as usize) {
                let at = choose|at: int|
                    0 <= at < breadcrumbs@.len() && breadcrumbs@[at] == final_index as usize;
                assert(breadcrumbs@[at] < rows@.len());
            }
        }
    }
    proof {
        assert forall|i: int|
            0 <= i < rows@.len() && !cluster.has(i) && #[trigger] selects(
                ranges@,
                i,
            ) implies rows@[i] is Context by {
            if halo.has(i) {
                assert(quiet(rows@[i]));
            } else if breadcrumbs@.contains(i as usize) {
                let at = choose|at: int| 0 <= at < breadcrumbs@.len() && breadcrumbs@[at] == i as usize;
                assert(rows@[breadcrumbs@[at] as int] is Context);
            }
        }
        assert forall|i: int| cluster.has(i) implies #[trigger] selects(ranges@, i) by {
            assert(halo.has(i));
        }
    }
    let mut changes: Vec<SourceChange> = Vec::new();
    let mut coverage = LineCoverage::nothing();
    let ghost blank = changes@;
    assert(are_drawn(*scene, changes@, rows@, *marks)) by {
        reveal(are_drawn);
    }
    append_ranges(scene, rows, &ranges, marks, &mut changes, &mut coverage);
    let ghost selected = changes@;
    append_hierarchy(scene, &mut changes, &mut coverage, &hierarchy);
    proof {
        lemma_drawn_push(*scene, selected, changes@, rows@, *marks);
        assert forall|claim: Claim| #[trigger]
            tally(changes@, claim) == run_total(
                row_weight(rows@, claim),
                cluster.start as int,
                cluster.end as int,
            ) by {
            let weight = row_weight(rows@, claim);
            assert forall|i: int|
                0 <= i < rows@.len() && !cluster.has(i) && #[trigger] selects(
                    ranges@,
                    i,
                ) implies weight(i) == 0 by {
                assert(rows@[i] is Context);
            }
            lemma_picked_run(
                weight,
                ranges@,
                cluster,
                rows@.len() as int,
                rows@.len() as int,
            );
            let added = changes@.skip(selected.len() as int);
            assert forall|k: int| 0 <= k < added.len() implies (
            #[trigger] added[k]) is Context || added[k] is Elision by {
                assert(added[k] == changes@[selected.len() + k]);
            }
            lemma_tally_plain(added, claim);
            assert(changes@ =~= selected + added);
            lemma_total_join(selected, added, change_weight(claim));
            lemma_tally_plain(blank, claim);
            assert(tally(selected, claim) == tally(blank, claim) + picked_total(
                weight,
                ranges@,
                rows@.len() as int,
            ));
        }
        assert forall|k: int| cluster.has(k) implies row_shown(changes@, #[trigger] rows@[k]) by {
            assert(halo.has(k));
            assert(selects(ranges@, k));
            assert(row_shown(selected, rows@[k]));
            lemma_row_still_shown(selected, changes@, rows@[k]);
        }
        assert forall|at: int|
            0 <= at < rows@.len() && cluster.start - 3 <= at < cluster.end + 3 && rows_quiet_to(
                rows@,
                cluster,
                at,
            ) implies row_shown(changes@, #[trigger] rows@[at]) by {
            assert(halo.has(at)) by {
                if at < halo.start {
                    assert(rows@[halo.start - 1] is Context);
                    assert(quiet(rows@[halo.start - 1]));
                }
                if at >= halo.end {
                    assert(rows@[halo.end as int] is Context);
                    assert(quiet(rows@[halo.end as int]));
                }
            }
            assert(selects(ranges@, at));
            assert(row_shown(selected, rows@[at]));
            lemma_row_still_shown(selected, changes@, rows@[at]);
        }
        if scene.pair.after.leaves_in_order() {
            lemma_explains_row_scopes(
                *scene,
                root,
                rows@,
                cluster,
                changes@,
                signals@,
                hierarchy@,
            );
        }
    }
    Excerpt { coverage, changes }
}

/// Cluster signals before each local context halo receives hierarchy breadcrumbs.
///
/// Every row that is not context is shown.
pub fn select_review_excerpts(
    scene: &PlanScene<'_>,
    root: NodeId,
    rows: &Vec<UnitRow>,
    marks: &RowMarks,
) -> (excerpts: Vec<Excerpt>)
    requires
        scene.wf(),
        scene.pair.after.has_node(root as int),
        rows_fit(*scene, rows@),
    ensures
        excerpts_fit(*scene, excerpts@),
        excerpts_drawn(*scene, excerpts@, rows@, *marks),
        forall|k: int|
            0 <= k < rows@.len() && !((#[trigger] rows@[k]) is Context) ==> row_shown_somewhere(
                excerpts@,
                rows@[k],
            ),
        (forall|k: int| 0 <= k < rows@.len() ==> (#[trigger] rows@[k]) is Context)
            ==> excerpts@.len() == 0,
        forall|claim: Claim| #[trigger]
            excerpts_tally(excerpts@, claim) == rows_tally(rows@, claim),
        rows_explained(*scene, root, rows@, excerpts@),
{
    let ghost mut runs = Seq::<Span>::empty();
    let context = ContextRows::new(rows);
    let mut excerpts: Vec<Excerpt> = Vec::new();
    let mut cluster: Option<Span> = None;
    let mut index: usize = 0;
    while index < rows.len()
        invariant
            scene.wf(),
            scene.pair.after.has_node(root as int),
            rows_fit(*scene, rows@),
            context.ok(rows@),
            index <= rows@.len(),
            excerpts_fit(*scene, excerpts@),
            excerpts_drawn(*scene, excerpts@, rows@, *marks),
            cluster matches Some(open) ==> open.start < open.end <= index,
            forall|k: int|
                0 <= k < index && !((#[trigger] rows@[k]) is Context) ==> row_shown_somewhere(
                    excerpts@,
                    rows@[k],
                ) || (cluster is Some && cluster->0.has(k)),
            cluster is None ==> excerpts@.len() == 0,
            cluster is None ==> forall|k: int| 0 <= k < index ==> (#[trigger] rows@[k]) is Context,
            cluster is Some ==> exists|k: int|
                0 <= k < index && !((#[trigger] rows@[k]) is Context),
            cluster matches Some(open) ==> forall|k: int|
                open.end <= k < index ==> (#[trigger] rows@[k]) is Context,
            are_open_runs(row_signals(rows@), index as int, runs, cluster),
            explain_row_runs(*scene, root, rows@, runs, excerpts@),
            forall|claim: Claim| #[trigger]
                excerpts_tally(excerpts@, claim) == run_total(
                    row_weight(rows@, claim),
                    0,
                    match cluster {
                        Some(open) => open.start as int,
                        None => index as int,
                    },
                ),
        decreases rows@.len() - index,
    {
        let ghost drawn = excerpts@;
        let ghost opened = cluster;
        proof {
            assert(rows.len() <= usize::MAX);
            assert(row_signals(rows@)(index as int) == !(rows@[index as int] is Context));
            lemma_runs_step(row_signals(rows@), index, runs, cluster);
        }
        if !rows[index].is_context() {
            match cluster {
                None => {
                    cluster = Some(Span { start: index, end: index + 1 });
                },
                Some(open) => {
                    // A single omitted context row costs the same as an excerpt separator.
                    if context_gap_fits_halos(index - open.end) {
                        cluster = Some(Span { start: open.start, end: index + 1 });
                    } else {
                        let excerpt = select_review_excerpt(
                            scene,
                            root,
                            rows,
                            marks,
                            &context,
                            open,
                        );
                        proof {
                            assert forall|k: int|
                                0 <= k < index && !((
                                #[trigger] rows@[k]) is Context) implies row_shown_somewhere(
                                excerpts@.push(excerpt),
                                rows@[k],
                            ) by {
                                if open.has(k) {
                                    assert(row_shown(excerpt.changes@, rows@[k]));
                                }
                                lemma_row_shown_push(excerpts@, excerpt, rows@[k]);
                            }
                        }
                        proof {
                            assert forall|claim: Claim| #[trigger]
                                excerpts_tally(excerpts@.push(excerpt), claim) == run_total(
                                    row_weight(rows@, claim),
                                    0,
                                    index as int,
                                ) by {
                                lemma_cluster_drawn(
                                    rows@,
                                    excerpts@,
                                    excerpt,
                                    open,
                                    index as int,
                                    claim,
                                );
                            }
                        }
                        proof {
                            lemma_explain_push(
                                *scene,
                                root,
                                rows@,
                                runs,
                                excerpts@,
                                open,
                                excerpt,
                            );
                            runs = runs.push(open);
                        }
                        excerpts.push(excerpt);
                        cluster = Some(Span { start: index, end: index + 1 });
                    }
                },
            }
        }
        proof {
            if opened is None && cluster is None {
                assert forall|claim: Claim| #[trigger]
                    excerpts_tally(excerpts@, claim) == run_total(
                        row_weight(rows@, claim),
                        0,
                        index + 1,
                    ) by {
                    assert(excerpts_tally(drawn, claim) == run_total(
                        row_weight(rows@, claim),
                        0,
                        index as int,
                    ));
                    assert(rows@[index as int] is Context);
                }
            }
        }
        index += 1;
    }
    if let Some(open) = cluster {
        let excerpt = select_review_excerpt(scene, root, rows, marks, &context, open);
        proof {
            assert forall|k: int|
                0 <= k < rows@.len() && !((
                #[trigger] rows@[k]) is Context) implies row_shown_somewhere(
                excerpts@.push(excerpt),
                rows@[k],
            ) by {
                if open.has(k) {
                    assert(row_shown(excerpt.changes@, rows@[k]));
                }
                lemma_row_shown_push(excerpts@, excerpt, rows@[k]);
            }
        }
        proof {
            assert forall|claim: Claim| #[trigger]
                excerpts_tally(excerpts@.push(excerpt), claim) == rows_tally(rows@, claim) by {
                lemma_cluster_drawn(
                    rows@,
                    excerpts@,
                    excerpt,
                    open,
                    rows@.len() as int,
                    claim,
                );
            }
            lemma_explain_push(*scene, root, rows@, runs, excerpts@, open, excerpt);
            runs = runs.push(open);
        }
        excerpts.push(excerpt);
    }
    proof {
        reveal(rows_explained);
        assert(are_runs(row_signals(rows@), rows@.len() as int, runs));
    }
    excerpts
}

/// The excerpt of a cluster, behind those of the clusters before it.
proof fn lemma_cluster_drawn(
    rows: Seq<UnitRow>,
    excerpts: Seq<Excerpt>,
    excerpt: Excerpt,
    open: Span,
    end: int,
    claim: Claim,
)
    requires
        0 <= open.start < open.end <= end <= rows.len(),
        forall|k: int| open.end <= k < end ==> (#[trigger] rows[k]) is Context,
        excerpts_tally(excerpts, claim) == run_total(
            row_weight(rows, claim),
            0,
            open.start as int,
        ),
        tally(excerpt.changes@, claim) == run_total(
            row_weight(rows, claim),
            open.start as int,
            open.end as int,
        ),
    ensures
        excerpts_tally(excerpts.push(excerpt), claim) == run_total(
            row_weight(rows, claim),
            0,
            end,
        ),
{
    let weight = row_weight(rows, claim);
    lemma_total_push(excerpts, excerpt, excerpt_weight(claim));
    lemma_run_join(weight, 0, open.start as int, open.end as int);
    lemma_run_join(weight, 0, open.end as int, end);
    assert forall|k: int| open.end <= k < end implies #[trigger] weight(k) == 0 by {
        assert(rows[k] is Context);
    }
    lemma_run_nothing(weight, open.end as int, end);
}

} // verus!

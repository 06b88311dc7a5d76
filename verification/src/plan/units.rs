//! Fragments of unit edits.

use crate::alignment::{is_anchored_alignment, ordered_matches, OrderedMatch};
use crate::change::{AfterGap, Signal};
use crate::correspondence::all_rows;
use crate::correspondence::geometry::{row_span, zero_based_lines, RowTexts};
use crate::correspondence::links::{
    LeafLink, LineFallback, MatchedUnit, NodeLink, Placement, UnitEdit,
};
use crate::plan::edits::{
    all_listed, are_comment_edits, are_unit_dependents, comment_edits, edits_compete,
    is_comment_edit, is_significant, lists_links, presentation_dependents, significant_leaf,
    spells_alike, PresentationDependents,
};
use crate::plan::excerpts::{
    excerpts_fit, plan_line_region, region_drawn, region_explained, Excerpt,
};
use crate::plan::facts::AnchorBasis;
use crate::plan::order::SourceOrder;
use crate::plan::payload::{
    append_touched_rows, are_payload_edits, comments_shown, current_rows_shown, edits_shown,
    is_touched_row, lemma_comments_shown, lemma_lost_rows_shown, marks_unpartnered, payload_drawn,
    payload_rows_shown, payload_spreads, payload_woven, plan_payload, plan_reflow,
    plan_reflow_with_comments, reflow_shown, reflow_woven, unit_drawn, unit_rows_accounted,
    unpartnered_marks, EditTokens,
};
use crate::plan::regions::{region_of, retained_region};
use crate::plan::rows::{is_replacement, replacement, LineEdit};
use crate::plan::scene::PlanScene;
use crate::review::{
    CompactChange, LineCoverage, LineEndingChange, LineEndpoint, MoveBlock, SourceChange,
};
use crate::source::LineEnding;
use crate::span::Span;
use crate::syntax::{NodeId, ReviewMode, SyntaxNode, SyntaxTree};
use crate::text::{lemma_encode_injective, same_bytes, same_str};
use vstd::prelude::*;
use vstd::utf8::is_char_boundary;

verus! {

/// One classified producer fragment in its native source coordinates.
pub struct Fragment {
    pub signal: Signal,
    pub excerpt: Excerpt,
    /// Place of a fragment without current lines.
    pub order_hint: Option<SourceOrder>,
}

pub open spec fn fragments_fit(scene: PlanScene<'_>, fragments: Seq<Fragment>) -> bool {
    forall|k: int| 0 <= k < fragments.len() ==> (#[trigger] fragments[k]).excerpt.fits(scene)
}

/// Excerpts of the fragments, in order.
pub open spec fn excerpts_of(fragments: Seq<Fragment>) -> Seq<Excerpt> {
    fragments.map_values(|fragment: Fragment| fragment.excerpt)
}

/// All fragments carry the signal.
pub open spec fn all_signal(fragments: Seq<Fragment>, signal: Signal) -> bool {
    forall|k: int|
        0 <= k < fragments.len() ==> (#[trigger] fragments[k]).signal == signal
            && fragments[k].order_hint is None
}

/// Classify excerpts.
fn with_signal(excerpts: Vec<Excerpt>, signal: Signal, Ghost(scene): Ghost<PlanScene<'_>>) -> (fragments:
    Vec<Fragment>)
    requires
        excerpts_fit(scene, excerpts@),
    ensures
        fragments_fit(scene, fragments@),
        all_signal(fragments@, signal),
        excerpts_of(fragments@) == excerpts@,
{
    let ghost listed = excerpts@;
    let mut pending = excerpts;
    let mut reversed: Vec<Fragment> = Vec::new();
    while pending.len() > 0
        invariant
            pending@.len() + reversed@.len() == listed.len(),
            pending@ == listed.take(pending@.len() as int),
            all_signal(reversed@, signal),
            forall|k: int|
                0 <= k < reversed@.len() ==> (#[trigger] reversed@[k]).excerpt == listed[listed.len()
                    - 1 - k],
        decreases pending@.len(),
    {
        let ghost count = pending@.len();
        let excerpt = pending.pop().unwrap();
        assert(excerpt == listed[count - 1]);
        reversed.push(Fragment { signal, excerpt, order_hint: None });
    }
    let mut fragments: Vec<Fragment> = Vec::new();
    let ghost turned = reversed@;
    while reversed.len() > 0
        invariant
            turned.len() == listed.len(),
            reversed@.len() + fragments@.len() == turned.len(),
            reversed@ == turned.take(reversed@.len() as int),
            all_signal(turned, signal),
            forall|k: int|
                0 <= k < turned.len() ==> (#[trigger] turned[k]).excerpt == listed[listed.len() - 1
                    - k],
            all_signal(fragments@, signal),
            forall|k: int|
                0 <= k < fragments@.len() ==> (#[trigger] fragments@[k]).excerpt == listed[k],
        decreases reversed@.len(),
    {
        let ghost count = reversed@.len();
        let fragment = reversed.pop().unwrap();
        assert(fragment == turned[count - 1]);
        fragments.push(fragment);
    }
    proof {
        assert(excerpts_of(fragments@) =~= listed);
        assert forall|k: int| 0 <= k < fragments@.len() implies (
        #[trigger] fragments@[k]).excerpt.fits(scene) by {
            assert(listed[k].fits(scene));
        }
    }
    fragments
}

/// Rows of a unit that only one revision holds.
fn plan_one_sided_lines(scene: &PlanScene<'_>, id: NodeId, removed: bool) -> (excerpt: Option<Excerpt>)
    requires
        scene.wf(),
        removed ==> scene.pair.before.has_node(id as int),
        !removed ==> scene.pair.after.has_node(id as int),
    ensures
        excerpt is None <==> side_row_span(*scene, id as int, removed).empty(),
        excerpt matches Some(excerpt) ==> excerpt.fits(*scene) && excerpt.changes@.len() == 1
            && is_replacement(
            excerpt.changes@[0],
            if removed {
                side_row_span(*scene, id as int, removed)
            } else {
                Span { start: 0, end: 0 }
            },
            if removed {
                Span { start: 0, end: 0 }
            } else {
                side_row_span(*scene, id as int, removed)
            },
        ),
{
    proof {
        scene.pair.before.source.lemma_line_count();
        scene.pair.after.source.lemma_line_count();
    }
    let nothing = Span { start: 0, end: 0 };
    let rows = if removed {
        zero_based_lines(&scene.pair.before, id)
    } else {
        zero_based_lines(&scene.pair.after, id)
    };
    if rows.is_empty() {
        return None;
    }
    let lines = Some(Span { start: rows.start + 1, end: rows.end + 1 });
    let mut changes: Vec<SourceChange> = Vec::new();
    if removed {
        changes.push(replacement(scene, rows, nothing));
        return Some(Excerpt { coverage: LineCoverage { before: lines, after: None }, changes });
    }
    changes.push(replacement(scene, nothing, rows));
    Some(Excerpt { coverage: LineCoverage { before: None, after: lines }, changes })
}

/// Rows of a node of either revision.
pub open spec fn side_row_span(scene: PlanScene<'_>, id: int, removed: bool) -> Span {
    if removed {
        row_span(scene.pair.before, id)
    } else {
        row_span(scene.pair.after, id)
    }
}

/// The change compares the words of the unit's first lines.
pub open spec fn wires(scene: PlanScene<'_>, unit: MatchedUnit, change: SourceChange) -> bool {
    change == SourceChange::Compact(
        CompactChange {
            before_bytes: Some(scene.pair.before.nodes@[unit.before as int].bytes),
            after_bytes: Some(scene.pair.after.nodes@[unit.after as int].bytes),
            before_line: Some((side_row_span(scene, unit.before as int, true).start + 1) as usize),
            after_line: Some((side_row_span(scene, unit.after as int, false).start + 1) as usize),
        },
    )
}

/// The unit takes more than one line of a revision.
pub open spec fn is_tall(scene: PlanScene<'_>, unit: MatchedUnit) -> bool {
    let before = side_row_span(scene, unit.before as int, true);
    let after = side_row_span(scene, unit.after as int, false);
    before.end - before.start > 1 || after.end - after.start > 1
}

/// What a changed compact unit must show: its words, or, where it is tall, every changed row.
pub open spec fn wiring_planned(
    scene: PlanScene<'_>,
    unit: MatchedUnit,
    fragments: Seq<Fragment>,
) -> bool {
    if is_tall(scene, unit) {
        unit_rows_accounted(scene, unit, excerpts_of(fragments)) && unit_drawn(
            scene,
            unit,
            syntax_basis(scene, unit),
            excerpts_of(fragments),
        )
    } else if side_row_span(scene, unit.before as int, true).empty() || side_row_span(
        scene,
        unit.after as int,
        false,
    ).empty() {
        fragments.len() == 0
    } else {
        fragments.len() == 1 && fragments[0].excerpt.changes@.len() == 1 && wires(
            scene,
            unit,
            fragments[0].excerpt.changes@[0],
        )
    }
}

/// A wiring edit whose both sides fit one line.
fn plan_wiring(scene: &PlanScene<'_>, unit: &MatchedUnit) -> (excerpt: Option<Excerpt>)
    requires
        scene.wf(),
        scene.unit_fits(*unit),
    ensures
        excerpt is None <==> side_row_span(*scene, unit.before as int, true).empty()
            || side_row_span(*scene, unit.after as int, false).empty(),
        excerpt matches Some(excerpt) ==> excerpt.fits(*scene) && excerpt.changes@.len() == 1
            && wires(*scene, *unit, excerpt.changes@[0]),
{
    proof {
        scene.pair.before.source.lemma_line_count();
        scene.pair.after.source.lemma_line_count();
    }
    let before = zero_based_lines(&scene.pair.before, unit.before);
    let after = zero_based_lines(&scene.pair.after, unit.after);
    if before.is_empty() || after.is_empty() {
        return None;
    }
    let mut changes: Vec<SourceChange> = Vec::new();
    changes.push(
        SourceChange::Compact(
            CompactChange {
                before_bytes: Some(scene.pair.before.nodes[unit.before].bytes),
                after_bytes: Some(scene.pair.after.nodes[unit.after].bytes),
                before_line: Some(before.start + 1),
                after_line: Some(after.start + 1),
            },
        ),
    );
    let coverage = LineCoverage {
        before: Some(Span { start: before.start + 1, end: before.end + 1 }),
        after: Some(Span { start: after.start + 1, end: after.end + 1 }),
    };
    Some(Excerpt { coverage, changes })
}

/// The terminator change names rows of the moved block, truly.
pub open spec fn ending_true(
    scene: PlanScene<'_>,
    before: Span,
    after: Span,
    change: LineEndingChange,
) -> bool {
    let old_lines = scene.pair.before.source.line_seq();
    let new_lines = scene.pair.after.source.line_seq();
    &&& change.before matches Some(point) ==> before.has(point.line - 1)
        && old_lines[point.line - 1].ending == point.ending
    &&& change.after matches Some(point) ==> after.has(point.line - 1)
        && new_lines[point.line - 1].ending == point.ending
    &&& change.before is Some && change.after is Some ==> change.before->0.ending
        != change.after->0.ending && scene.pair.before.source.line_content(
        old_lines[change.before->0.line - 1],
    ) == scene.pair.after.source.line_content(new_lines[change.after->0.line - 1])
    &&& change.before is Some || change.after is Some
}

pub open spec fn endings_true(
    scene: PlanScene<'_>,
    before: Span,
    after: Span,
    changes: Seq<LineEndingChange>,
) -> bool {
    forall|k: int|
        0 <= k < changes.len() ==> ending_true(scene, before, after, #[trigger] changes[k])
}

/// Terminator changes of the first paired rows whose terminators differ.
pub open spec fn paired_endings(
    scene: PlanScene<'_>,
    before: Span,
    after: Span,
    matches: Seq<OrderedMatch>,
    count: int,
) -> Seq<LineEndingChange>
    decreases count,
{
    if count <= 0 {
        Seq::empty()
    } else {
        let earlier = paired_endings(scene, before, after, matches, count - 1);
        let old_row = before.start + matches[count - 1].before;
        let new_row = after.start + matches[count - 1].after;
        let old_ending = scene.pair.before.source.line_seq()[old_row].ending;
        let new_ending = scene.pair.after.source.line_seq()[new_row].ending;
        if old_ending != new_ending {
            earlier.push(
                LineEndingChange {
                    before: Some(
                        LineEndpoint { line: (old_row + 1) as usize, ending: old_ending },
                    ),
                    after: Some(LineEndpoint { line: (new_row + 1) as usize, ending: new_ending }),
                },
            )
        } else {
            earlier
        }
    }
}

/// First rows of a range without a partner that end with the terminator.
pub open spec fn free_rows(
    tree: SyntaxTree,
    rows: Span,
    matched: Seq<bool>,
    ending: LineEnding,
    count: int,
) -> Seq<usize>
    decreases count,
{
    if count <= 0 {
        Seq::empty()
    } else {
        let earlier = free_rows(tree, rows, matched, ending, count - 1);
        let row = rows.start + count - 1;
        if !matched[count - 1] && tree.source.line_seq()[row].ending == ending {
            earlier.push(row as usize)
        } else {
            earlier
        }
    }
}

/// Terminators of rows without a partner, after as many as both sides hold have cancelled.
pub open spec fn lone_endings(
    old_rows: Seq<usize>,
    new_rows: Seq<usize>,
    ending: LineEnding,
) -> Seq<LineEndingChange> {
    let cancelled = if old_rows.len() <= new_rows.len() {
        old_rows.len()
    } else {
        new_rows.len()
    };
    Seq::new(
        (old_rows.len() - cancelled) as nat,
        |k: int|
            LineEndingChange {
                before: Some(
                    LineEndpoint { line: (old_rows[cancelled + k] + 1) as usize, ending },
                ),
                after: None,
            },
    ) + Seq::new(
        (new_rows.len() - cancelled) as nat,
        |k: int|
            LineEndingChange {
                before: None,
                after: Some(LineEndpoint { line: (new_rows[cancelled + k] + 1) as usize, ending }),
            },
    )
}

/// The flags tell which rows of both sides the first matches hold.
pub open spec fn flags_matches(
    matched_before: Seq<bool>,
    matched_after: Seq<bool>,
    matches: Seq<OrderedMatch>,
    count: int,
) -> bool {
    &&& forall|i: int|
        0 <= i < matched_before.len() ==> ((#[trigger] matched_before[i]) <==> exists|k: int|
            0 <= k < count && (#[trigger] matches[k]).before == i)
    &&& forall|j: int|
        0 <= j < matched_after.len() ==> ((#[trigger] matched_after[j]) <==> exists|k: int|
            0 <= k < count && (#[trigger] matches[k]).after == j)
}

/// The terminator changes of a moved block: those of rows of equal text, matched in order, and
/// those of rows without a partner that do not cancel.
#[verifier::opaque]
pub open spec fn are_moved_endings(
    scene: PlanScene<'_>,
    before: Span,
    after: Span,
    endings: Seq<LineEndingChange>,
) -> bool {
    exists|
        texts: RowTexts,
        matches: Seq<OrderedMatch>,
        matched_before: Seq<bool>,
        matched_after: Seq<bool>,
    |
        #[trigger] texts.describes_rows(
            scene.pair.before.source,
            before,
            scene.pair.after.source,
            after,
        ) && is_anchored_alignment(matches, texts.before@, texts.after@)
            && matched_before.len() == before.end - before.start && matched_after.len() == after.end
            - after.start && #[trigger] flags_matches(
            matched_before,
            matched_after,
            matches,
            matches.len() as int,
        ) && endings == paired_endings(
            scene,
            before,
            after,
            matches,
            matches.len() as int,
        ) + side_endings(scene, before, after, matched_before, matched_after, LineEnding::Missing)
            + side_endings(scene, before, after, matched_before, matched_after, LineEnding::CrLf)
}

/// Terminators of one kind that rows without a partner keep.
pub open spec fn side_endings(
    scene: PlanScene<'_>,
    before: Span,
    after: Span,
    matched_before: Seq<bool>,
    matched_after: Seq<bool>,
    ending: LineEnding,
) -> Seq<LineEndingChange> {
    lone_endings(
        free_rows(scene.pair.before, before, matched_before, ending, before.end - before.start),
        free_rows(scene.pair.after, after, matched_after, ending, after.end - after.start),
        ending,
    )
}

/// A list of `count` equal flags.
fn flags(count: usize) -> (flags: Vec<bool>)
    ensures
        flags@.len() == count,
        forall|k: int| 0 <= k < count ==> !(#[trigger] flags@[k]),
{
    let mut flags: Vec<bool> = Vec::new();
    while flags.len() < count
        invariant
            flags@.len() <= count,
            forall|k: int| 0 <= k < flags@.len() ==> !(#[trigger] flags@[k]),
        decreases count - flags@.len(),
    {
        flags.push(false);
    }
    flags
}

/// Rows of a range whose flag is unset and whose terminator is the given one.
fn unmatched_rows(tree: &SyntaxTree, rows: Span, matched: &Vec<bool>, ending: LineEnding) -> (found: Vec<
    usize,
>)
    requires
        rows.start <= rows.end <= tree.source.line_seq().len(),
        matched@.len() == rows.end - rows.start,
    ensures
        forall|k: int|
            0 <= k < found@.len() ==> rows.has((#[trigger] found@[k]) as int)
                && tree.source.line_seq()[found@[k] as int].ending == ending,
        found@ == free_rows(*tree, rows, matched@, ending, rows.end - rows.start),
{
    let mut found: Vec<usize> = Vec::new();
    let mut row = rows.start;
    while row < rows.end
        invariant
            rows.start <= row <= rows.end <= tree.source.line_seq().len(),
            matched@.len() == rows.end - rows.start,
            forall|k: int|
                0 <= k < found@.len() ==> rows.has((#[trigger] found@[k]) as int)
                    && tree.source.line_seq()[found@[k] as int].ending == ending,
            found@ == free_rows(*tree, rows, matched@, ending, row - rows.start),
        decreases rows.end - row,
    {
        if !matched[row - rows.start] && tree.source.lines()[row].ending == ending {
            found.push(row);
        }
        row += 1;
    }
    found
}

/// Terminator changes inside a moved block.
///
/// Equal lines are paired in order, and every pair whose terminators differ is listed. Unmatched
/// layout cannot create a line pair: equal special terminators cancel, and only the one-sided
/// ones that remain are listed.
fn moved_line_endings(scene: &PlanScene<'_>, before: Span, after: Span) -> (endings: Vec<
    LineEndingChange,
>)
    requires
        scene.wf(),
        before.start <= before.end <= scene.before_count(),
        after.start <= after.end <= scene.after_count(),
    ensures
        endings_true(*scene, before, after, endings@),
        are_moved_endings(*scene, before, after, endings@),
{
    proof {
        scene.pair.before.source.lemma_line_count();
        scene.pair.after.source.lemma_line_count();
    }
    let texts = RowTexts::of_rows(
        &scene.pair.before.source,
        before,
        &scene.pair.after.source,
        after,
    );
    let matches = ordered_matches(texts.before.as_slice(), texts.after.as_slice());
    let mut matched_before = flags(before.len());
    let mut matched_after = flags(after.len());
    let mut endings: Vec<LineEndingChange> = Vec::new();
    let mut index: usize = 0;
    while index < matches.len()
        invariant
            scene.before_count() < usize::MAX,
            scene.after_count() < usize::MAX,
            before.start <= before.end <= scene.before_count(),
            after.start <= after.end <= scene.after_count(),
            texts.describes_rows(scene.pair.before.source, before, scene.pair.after.source, after),
            crate::alignment::pairs_equal(matches@, texts.before@, texts.after@),
            matched_before@.len() == before.end - before.start,
            matched_after@.len() == after.end - after.start,
            index <= matches@.len(),
            endings_true(*scene, before, after, endings@),
            endings@ == paired_endings(*scene, before, after, matches@, index as int),
            flags_matches(matched_before@, matched_after@, matches@, index as int),
        decreases matches@.len() - index,
    {
        let link = matches[index];
        assert(matches@[index as int].before < texts.before@.len());
        let ghost old_flags = matched_before@;
        let ghost new_flags = matched_after@;
        matched_before.set(link.before, true);
        matched_after.set(link.after, true);
        proof {
            lemma_flags_next(old_flags, new_flags, matches@, index as int);
        }
        let old_row = before.start + link.before;
        let new_row = after.start + link.after;
        let old_ending = scene.pair.before.source.lines()[old_row].ending;
        let new_ending = scene.pair.after.source.lines()[new_row].ending;
        if old_ending != new_ending {
            let change = LineEndingChange {
                before: Some(LineEndpoint { line: old_row + 1, ending: old_ending }),
                after: Some(LineEndpoint { line: new_row + 1, ending: new_ending }),
            };
            proof {
                assert(texts.before@[link.before as int] == texts.after@[link.after as int]);
                assert(ending_true(*scene, before, after, change));
            }
            endings.push(change);
        }
        index += 1;
    }
    push_unmatched(
        scene,
        before,
        after,
        &matched_before,
        &matched_after,
        LineEnding::Missing,
        &mut endings,
    );
    push_unmatched(
        scene,
        before,
        after,
        &matched_before,
        &matched_after,
        LineEnding::CrLf,
        &mut endings,
    );
    proof {
        reveal(are_moved_endings);
        assert(flags_matches(
            matched_before@,
            matched_after@,
            matches@,
            matches@.len() as int,
        ));
        assert(endings@ =~= paired_endings(
            *scene,
            before,
            after,
            matches@,
            matches@.len() as int,
        ) + side_endings(
            *scene,
            before,
            after,
            matched_before@,
            matched_after@,
            LineEnding::Missing,
        ) + side_endings(
            *scene,
            before,
            after,
            matched_before@,
            matched_after@,
            LineEnding::CrLf,
        ));
    }
    endings
}

/// One more match sets its flags.
proof fn lemma_flags_next(
    old_flags: Seq<bool>,
    new_flags: Seq<bool>,
    matches: Seq<OrderedMatch>,
    count: int,
)
    requires
        0 <= count < matches.len(),
        matches[count].before < old_flags.len(),
        matches[count].after < new_flags.len(),
        flags_matches(old_flags, new_flags, matches, count),
    ensures
        flags_matches(
            old_flags.update(matches[count].before as int, true),
            new_flags.update(matches[count].after as int, true),
            matches,
            count + 1,
        ),
{
    let link = matches[count];
    let old_next = old_flags.update(link.before as int, true);
    let new_next = new_flags.update(link.after as int, true);
    assert forall|i: int| 0 <= i < old_next.len() implies ((#[trigger] old_next[i]) <==> exists|
        k: int,
    |
        0 <= k < count + 1 && (#[trigger] matches[k]).before == i) by {
        assert(old_flags[i] == old_flags[i]);
        if old_flags[i] {
            let k = choose|k: int| 0 <= k < count && (#[trigger] matches[k]).before == i;
            assert(matches[k].before == i);
        }
        if i == link.before {
            assert(matches[count].before == i);
        }
    }
    assert forall|j: int| 0 <= j < new_next.len() implies ((#[trigger] new_next[j]) <==> exists|
        k: int,
    |
        0 <= k < count + 1 && (#[trigger] matches[k]).after == j) by {
        assert(new_flags[j] == new_flags[j]);
        if new_flags[j] {
            let k = choose|k: int| 0 <= k < count && (#[trigger] matches[k]).after == j;
            assert(matches[k].after == j);
        }
        if j == link.after {
            assert(matches[count].after == j);
        }
    }
}

/// List the one-sided terminators of one kind that nothing on the other side cancels.
fn push_unmatched(
    scene: &PlanScene<'_>,
    before: Span,
    after: Span,
    matched_before: &Vec<bool>,
    matched_after: &Vec<bool>,
    ending: LineEnding,
    endings: &mut Vec<LineEndingChange>,
)
    requires
        scene.before_count() < usize::MAX,
        scene.after_count() < usize::MAX,
        before.start <= before.end <= scene.before_count(),
        after.start <= after.end <= scene.after_count(),
        matched_before@.len() == before.end - before.start,
        matched_after@.len() == after.end - after.start,
        endings_true(*scene, before, after, old(endings)@),
    ensures
        endings_true(*scene, before, after, final(endings)@),
        final(endings)@ == old(endings)@ + side_endings(
            *scene,
            before,
            after,
            matched_before@,
            matched_after@,
            ending,
        ),
{
    let ghost start = endings@;
    let old_rows = unmatched_rows(&scene.pair.before, before, matched_before, ending);
    let new_rows = unmatched_rows(&scene.pair.after, after, matched_after, ending);
    let cancelled = if old_rows.len() <= new_rows.len() {
        old_rows.len()
    } else {
        new_rows.len()
    };
    let mut index = cancelled;
    while index < old_rows.len()
        invariant
            scene.before_count() < usize::MAX,
            before.end <= scene.before_count(),
            cancelled <= index <= old_rows@.len(),
            forall|k: int|
                0 <= k < old_rows@.len() ==> before.has((#[trigger] old_rows@[k]) as int)
                    && scene.pair.before.source.line_seq()[old_rows@[k] as int].ending == ending,
            endings_true(*scene, before, after, endings@),
            endings@ == start + lone_endings(old_rows@, new_rows@, ending).take(index - cancelled),
            cancelled == if old_rows@.len() <= new_rows@.len() {
                old_rows@.len()
            } else {
                new_rows@.len()
            },
        decreases old_rows@.len() - index,
    {
        let row = old_rows[index];
        assert(before.has(old_rows@[index as int] as int));
        let change = LineEndingChange {
            before: Some(LineEndpoint { line: row + 1, ending }),
            after: None,
        };
        assert(ending_true(*scene, before, after, change));
        proof {
            let lone = lone_endings(old_rows@, new_rows@, ending);
            assert(lone[index - cancelled] == change);
            assert(lone.take(index - cancelled + 1) =~= lone.take(index - cancelled).push(change));
            assert(start + lone.take(index - cancelled + 1) =~= (start + lone.take(
                index - cancelled,
            )).push(change));
        }
        endings.push(change);
        index += 1;
    }
    let mut at = cancelled;
    while at < new_rows.len()
        invariant
            scene.after_count() < usize::MAX,
            after.end <= scene.after_count(),
            cancelled <= at <= new_rows@.len(),
            forall|k: int|
                0 <= k < new_rows@.len() ==> after.has((#[trigger] new_rows@[k]) as int)
                    && scene.pair.after.source.line_seq()[new_rows@[k] as int].ending == ending,
            endings_true(*scene, before, after, endings@),
            endings@ == start + lone_endings(old_rows@, new_rows@, ending).take(
                (old_rows@.len() - cancelled) + (at - cancelled),
            ),
            cancelled == if old_rows@.len() <= new_rows@.len() {
                old_rows@.len()
            } else {
                new_rows@.len()
            },
        decreases new_rows@.len() - at,
    {
        let row = new_rows[at];
        assert(after.has(new_rows@[at as int] as int));
        let change = LineEndingChange {
            before: None,
            after: Some(LineEndpoint { line: row + 1, ending }),
        };
        assert(ending_true(*scene, before, after, change));
        proof {
            let lone = lone_endings(old_rows@, new_rows@, ending);
            let place = (old_rows@.len() - cancelled) + (at - cancelled);
            assert(lone[place] == change);
            assert(lone.take(place + 1) =~= lone.take(place).push(change));
            assert(start + lone.take(place + 1) =~= (start + lone.take(place)).push(change));
        }
        endings.push(change);
        at += 1;
    }
    proof {
        let lone = lone_endings(old_rows@, new_rows@, ending);
        assert(lone.take((old_rows@.len() - cancelled) + (at - cancelled)) =~= lone);
    }
}

/// The lines of a unit that changed only its place.
///
/// A move remains the primary fact, but concrete terminator edits inside it cannot disappear.
fn plan_move(scene: &PlanScene<'_>, unit: &MatchedUnit) -> (excerpt: Option<Excerpt>)
    requires
        scene.wf(),
        scene.unit_fits(*unit),
    ensures
        excerpt is None <==> side_row_span(*scene, unit.before as int, true).empty()
            || side_row_span(*scene, unit.after as int, false).empty(),
        excerpt matches Some(excerpt) ==> excerpt.fits(*scene) && excerpt.changes@.len() == 1
            && moves_rows(
            excerpt.changes@[0],
            side_row_span(*scene, unit.before as int, true),
            side_row_span(*scene, unit.after as int, false),
        ) && keeps_endings(*scene, *unit, excerpt.changes@[0]),
{
    proof {
        scene.pair.before.source.lemma_line_count();
        scene.pair.after.source.lemma_line_count();
    }
    let before = zero_based_lines(&scene.pair.before, unit.before);
    let after = zero_based_lines(&scene.pair.after, unit.after);
    if before.is_empty() || after.is_empty() {
        return None;
    }
    let before_lines = Span { start: before.start + 1, end: before.end + 1 };
    let after_lines = Span { start: after.start + 1, end: after.end + 1 };
    let line_endings = moved_line_endings(scene, before, after);
    let mut changes: Vec<SourceChange> = Vec::new();
    changes.push(
        SourceChange::Move(MoveBlock { before: before_lines, after: after_lines, line_endings }),
    );
    let coverage = LineCoverage { before: Some(before_lines), after: Some(after_lines) };
    Some(Excerpt { coverage, changes })
}

/// The move lists the terminator changes inside the unit.
pub open spec fn keeps_endings(
    scene: PlanScene<'_>,
    unit: MatchedUnit,
    change: SourceChange,
) -> bool {
    change matches SourceChange::Move(block) ==> are_moved_endings(
        scene,
        row_span(scene.pair.before, unit.before as int),
        row_span(scene.pair.after, unit.after as int),
        block.line_endings@,
    )
}

/// The change moves exactly these rows.
pub open spec fn moves_rows(change: SourceChange, before: Span, after: Span) -> bool {
    change matches SourceChange::Move(block) && block.before == (Span {
        start: (before.start + 1) as usize,
        end: (before.end + 1) as usize,
    }) && block.after == (Span {
        start: (after.start + 1) as usize,
        end: (after.end + 1) as usize,
    })
}

/// Both nodes are named, and named alike.
pub open spec fn same_owner(scene: PlanScene<'_>, unit: MatchedUnit) -> bool {
    let old_node = scene.pair.before.nodes@[unit.before as int];
    let new_node = scene.pair.after.nodes@[unit.after as int];
    &&& old_node.identity is Some
    &&& new_node.identity is Some
    &&& scene.pair.before.source.data().subrange(
        old_node.identity->0.start as int,
        old_node.identity->0.end as int,
    ) == scene.pair.after.source.data().subrange(
        new_node.identity->0.start as int,
        new_node.identity->0.end as int,
    )
}

/// Text of the name of a node, if it has one.
pub open spec fn name_of(tree: SyntaxTree, id: int) -> Option<Seq<u8>> {
    match tree.nodes@[id].identity {
        Some(span) => if span.start <= span.end <= tree.source.data().len() && is_char_boundary(
            tree.source.data(),
            span.start as int,
        ) && is_char_boundary(tree.source.data(), span.end as int) {
            Some(tree.source.data().subrange(span.start as int, span.end as int))
        } else {
            None
        },
        None => None,
    }
}

/// The two nodes of a unit have the same name, or both have none.
pub open spec fn named_alike(scene: PlanScene<'_>, unit: MatchedUnit) -> bool {
    name_of(scene.pair.before, unit.before as int) == name_of(scene.pair.after, unit.after as int)
}

/// Rows of a unit are told apart by its syntax; its owner is the same where both nodes have one
/// name.
pub open spec fn syntax_basis(scene: PlanScene<'_>, unit: MatchedUnit) -> AnchorBasis {
    AnchorBasis::Syntax {
        same_owner: named_alike(scene, unit) && name_of(
            scene.pair.before,
            unit.before as int,
        ) is Some,
    }
}

/// Whether the names of a unit agree: both absent, both present and equal, or neither.
fn identities(scene: &PlanScene<'_>, unit: &MatchedUnit) -> (agree: (bool, bool))
    requires
        scene.wf(),
        scene.unit_fits(*unit),
    ensures
        agree.0 == named_alike(*scene, *unit),
        agree.1 == (agree.0 && name_of(scene.pair.before, unit.before as int) is Some),
        agree.1 ==> same_owner(*scene, *unit),
{
    match (
        scene.pair.before.identity_text(unit.before),
        scene.pair.after.identity_text(unit.after),
    ) {
        (Some(left), Some(right)) => {
            let same = same_str(left, right);
            proof {
                lemma_encode_injective(left@, right@);
            }
            (same, same)
        },
        (None, None) => (true, false),
        _ => (false, false),
    }
}

/// Whether reparented structure of the unit keeps whole rows.
fn has_retainable_reparented_region(scene: &PlanScene<'_>, unit: &MatchedUnit) -> (result: bool)
    requires
        scene.wf(),
        scene.unit_fits(*unit),
    ensures
        result == retains_reparented(*scene, *unit),
{
    let before = zero_based_lines(&scene.pair.before, unit.before);
    let after = zero_based_lines(&scene.pair.after, unit.after);
    let mut index = unit.composites.start;
    while index < unit.composites.end
        invariant
            scene.wf(),
            scene.unit_fits(*unit),
            before == row_span(scene.pair.before, unit.before as int),
            after == row_span(scene.pair.after, unit.after as int),
            unit.composites.start <= index <= unit.composites.end,
            forall|k: int|
                unit.composites.start <= k < index ==> !(is_reparented(
                    #[trigger] scene.graph.tree.composites@[k],
                ) && region_of(*scene, scene.graph.tree.composites@[k], before, after) is Some),
        decreases unit.composites.end - index,
    {
        let link = scene.graph.tree.composites[index];
        assert(scene.graph.tree.composites@.contains(link)) by {
            assert(scene.graph.tree.composites@[index as int] == link);
        }
        if link.reparented() {
            if retained_region(scene, &link, before, after).is_some() {
                assert(is_reparented(scene.graph.tree.composites@[index as int]));
                return true;
            }
        }
        index += 1;
    }
    false
}

/// A wrapper was inserted or removed around the node.
pub open spec fn is_reparented(link: NodeLink) -> bool {
    link.wrapper is Some || link.parent
        != crate::correspondence::links::ParentCorrespondence::Direct
}

/// Some payload leaf below the node has no partner.
pub open spec fn unpartnered(tree: SyntaxTree, partners: Seq<Option<usize>>, root: int) -> bool {
    exists|id: int|
        tree.in_subtree(root, id) && is_significant(#[trigger] tree.nodes@[id])
            && partners[id] is None
}

/// Whether payload below a node has no partner.
fn has_unmatched_content(tree: &SyntaxTree, partners: &Vec<Option<usize>>, root: NodeId) -> (result:
    bool)
    requires
        tree.wf(),
        tree.has_node(root as int),
        partners@.len() == tree.nodes@.len(),
    ensures
        result == unpartnered(*tree, partners@, root as int),
{
    proof {
        assert(crate::syntax::node_fits(
            tree.nodes@[root as int],
            root as int,
            tree.nodes@.len() as int,
            tree.source.data().len() as int,
        ));
    }
    let end = tree.nodes[root].subtree_end;
    let mut id = root;
    while id < end
        invariant
            tree.wf(),
            partners@.len() == tree.nodes@.len(),
            end == tree.nodes@[root as int].subtree_end,
            root <= id <= end <= tree.nodes@.len(),
            forall|other: int|
                root <= other < id ==> !(is_significant(#[trigger] tree.nodes@[other])
                    && partners@[other] is None),
        decreases end - id,
    {
        if significant_leaf(&tree.nodes[id]) && partners[id].is_none() {
            assert(is_significant(tree.nodes@[id as int]));
            return true;
        }
        id += 1;
    }
    false
}

/// The unit changed nothing but its place.
pub open spec fn is_moved(unit: MatchedUnit) -> bool {
    unit.placement == Placement::Reordered && unit.relation.strength() >= 2
}

/// Why a matched unit deserves attention.
pub open spec fn unit_signal(unit: MatchedUnit) -> Signal {
    if is_moved(unit) {
        Signal::Move
    } else {
        match unit.mode {
            ReviewMode::Compact => Signal::Wiring,
            ReviewMode::Linewise => Signal::Edit,
            ReviewMode::StructureAware => if unit.relation.strength() >= 2 {
                Signal::Reflow
            } else {
                Signal::Edit
            },
        }
    }
}

/// What a matched unit must show.
pub open spec fn unit_planned(
    scene: PlanScene<'_>,
    unit: MatchedUnit,
    fragments: Seq<Fragment>,
) -> bool {
    &&& fragments_fit(scene, fragments)
    &&& all_signal(fragments, unit_signal(unit))
    &&& unit.relation.strength() >= 3 && !is_moved(unit) ==> fragments.len() == 0
    &&& unit.mode == ReviewMode::Linewise && unit.relation.strength() < 3 && !is_moved(unit)
        ==> unit_rows_accounted(scene, unit, excerpts_of(fragments)) && unit_drawn(
        scene,
        unit,
        AnchorBasis::Physical,
        excerpts_of(fragments),
    )
    &&& unit.mode == ReviewMode::Compact && unit.relation.strength() < 3 && !is_moved(unit)
        ==> wiring_planned(scene, unit, fragments)
    &&& unit.mode == ReviewMode::StructureAware && unit.relation.strength() == 2 && !is_moved(unit)
        ==> reflow_shown(scene, unit, excerpts_of(fragments))
    &&& unit.mode == ReviewMode::StructureAware && unit.relation.strength() == 1
        ==> comments_shown(scene, unit, excerpts_of(fragments)) && comments_planned(
        scene,
        unit,
        excerpts_of(fragments),
    )
    &&& unit.mode == ReviewMode::StructureAware && unit.relation.strength() == 0 ==> (
    if reviewed_by_lines(scene, unit) {
        unit_rows_accounted(scene, unit, excerpts_of(fragments)) && unit_drawn(
            scene,
            unit,
            syntax_basis(scene, unit),
            excerpts_of(fragments),
        )
    } else {
        payload_planned(scene, unit, excerpts_of(fragments))
    })
    &&& unit.mode == ReviewMode::StructureAware && unit.relation.strength() == 0 ==> (
    unit_rows_accounted(scene, unit, excerpts_of(fragments)) || payload_rows_shown(
        scene,
        unit,
        excerpts_of(fragments),
    ))
    &&& is_moved(unit) && (side_row_span(scene, unit.before as int, true).empty()
        || side_row_span(scene, unit.after as int, false).empty()) ==> fragments.len() == 0
    &&& is_moved(unit) && !side_row_span(scene, unit.before as int, true).empty()
        && !side_row_span(scene, unit.after as int, false).empty() ==> fragments.len() == 1
        && fragments[0].excerpt.changes@.len() == 1 && moves_rows(
        fragments[0].excerpt.changes@[0],
        side_row_span(scene, unit.before as int, true),
        side_row_span(scene, unit.after as int, false),
    ) && keeps_endings(scene, unit, fragments[0].excerpt.changes@[0])
}

/// At most one excerpt, classified.
fn single(excerpt: Option<Excerpt>, signal: Signal, Ghost(scene): Ghost<PlanScene<'_>>) -> (fragments:
    Vec<Fragment>)
    requires
        excerpt matches Some(excerpt) ==> excerpt.fits(scene),
    ensures
        fragments_fit(scene, fragments@),
        all_signal(fragments@, signal),
        excerpt is None ==> fragments@.len() == 0,
        excerpt matches Some(excerpt) ==> fragments@.len() == 1 && fragments@[0].excerpt == excerpt,
{
    let mut fragments: Vec<Fragment> = Vec::new();
    if let Some(excerpt) = excerpt {
        fragments.push(Fragment { signal, excerpt, order_hint: None });
    }
    fragments
}

/// Plan the rows of a matched unit by physical lines.
fn plan_unit_lines(scene: &PlanScene<'_>, unit: &MatchedUnit, basis: AnchorBasis) -> (excerpts: Vec<
    Excerpt,
>)
    requires
        scene.wf(),
        scene.unit_fits(*unit),
    ensures
        excerpts_fit(*scene, excerpts@),
        unit_rows_accounted(*scene, *unit, excerpts@),
        unit_drawn(*scene, *unit, basis, excerpts@),
{
    let before = zero_based_lines(&scene.pair.before, unit.before);
    let after = zero_based_lines(&scene.pair.after, unit.after);
    let composites = scene.graph.tree.unit_composites(unit);
    proof {
        assert forall|k: int| 0 <= k < composites@.len() implies scene.graph.tree.composites@.contains(
            #[trigger] composites@[k],
        ) by {
            assert(composites@[k] == scene.graph.tree.composites@[unit.composites.start + k]);
        }
    }
    let excerpts = plan_line_region(scene, before, after, composites, Some(unit.after), basis);
    assert(unit_drawn(*scene, *unit, basis, excerpts@));
    excerpts
}

/// Plan a unit that both revisions hold.
pub fn plan_matched_unit(scene: &PlanScene<'_>, unit: &MatchedUnit) -> (fragments: Vec<Fragment>)
    requires
        scene.wf(),
        scene.unit_fits(*unit),
    ensures
        unit_planned(*scene, *unit, fragments@),
{
    if matches!(unit.placement, Placement::Reordered) && unit.relation.full_equal() {
        let excerpt = plan_move(scene, unit);
        return single(excerpt, Signal::Move, Ghost(*scene));
    }
    if unit.relation.source_equal() {
        return Vec::new();
    }
    match unit.mode {
        ReviewMode::Compact => {
            let before = zero_based_lines(&scene.pair.before, unit.before);
            let after = zero_based_lines(&scene.pair.after, unit.after);
            if before.len() > 1 || after.len() > 1 {
                let (_, same_owner) = identities(scene, unit);
                let excerpts = plan_unit_lines(scene, unit, AnchorBasis::Syntax { same_owner });
                return with_signal(excerpts, Signal::Wiring, Ghost(*scene));
            }
            let excerpt = plan_wiring(scene, unit);
            single(excerpt, Signal::Wiring, Ghost(*scene))
        },
        ReviewMode::Linewise => {
            let excerpts = plan_unit_lines(scene, unit, AnchorBasis::Physical);
            with_signal(excerpts, Signal::Edit, Ghost(*scene))
        },
        ReviewMode::StructureAware => plan_structured_unit(scene, unit),
    }
}

/// Plan a unit whose structure is compared.
fn plan_structured_unit(scene: &PlanScene<'_>, unit: &MatchedUnit) -> (fragments: Vec<Fragment>)
    requires
        scene.wf(),
        scene.unit_fits(*unit),
        unit.mode == ReviewMode::StructureAware,
        unit.relation.strength() < 3,
        !is_moved(*unit),
    ensures
        unit_planned(*scene, *unit, fragments@),
{
    if unit.relation.full_equal() {
        let excerpts = plan_reflow(scene, unit);
        return with_signal(excerpts, Signal::Reflow, Ghost(*scene));
    }
    let dependents = presentation_dependents(scene, unit);
    let comments = comment_edits(scene, unit, &dependents);
    if unit.relation.payload_equal() {
        let ghost listed = comments@;
        let excerpts = plan_reflow_with_comments(scene, unit, comments);
        proof {
            lemma_comments_shown(*scene, *unit, listed, excerpts@);
            assert(are_unit_dependents(*scene, *unit, dependents));
            assert(are_comment_edits(*scene, *unit, dependents, listed));
            assert(comments_planned(*scene, *unit, excerpts@));
        }
        return with_signal(excerpts, Signal::Edit, Ghost(*scene));
    }
    let (same_name, same_owner) = identities(scene, unit);
    let basis = AnchorBasis::Syntax { same_owner };
    let links = link_changes(scene, unit);
    let leaves = &scene.graph.tree.leaves;
    let lost = has_unmatched_content(&scene.pair.before, &leaves.before, unit.before);
    let gained = has_unmatched_content(&scene.pair.after, &leaves.after, unit.after);
    // A unit that only changed its name keeps its contents, and payload that only changed its
    // wrapping keeps its place.
    let renamed = !same_name && !gained && !links.reordered && !links.modified_beyond_name;
    let rewrapped = links.rewrapped && !links.reordered && !links.modified;
    let needs_physical_plan = (lost && !rewrapped) || !(same_name || renamed)
        || has_retainable_reparented_region(scene, unit);
    if needs_physical_plan {
        let excerpts = plan_unit_lines(scene, unit, basis);
        return with_signal(excerpts, Signal::Edit, Ghost(*scene));
    }
    let removed = unpartnered_marks(&scene.pair.before, &leaves.before, unit.before);
    let mut edits = comments;
    let before = zero_based_lines(&scene.pair.before, unit.before);
    append_touched_rows(scene, &mut edits, before, &removed);
    let ghost given = edits@;
    let ghost lost_marks = removed@;
    let tokens = if renamed {
        EditTokens {
            removed: identity_marks(&scene.pair.before.nodes[unit.before]),
            added: identity_marks(&scene.pair.after.nodes[unit.after]),
        }
    } else {
        EditTokens { removed, added: Vec::new() }
    };
    let ghost used = tokens;
    let excerpts = plan_payload(scene, unit, &dependents, edits, basis, tokens);
    proof {
        assert(are_unit_dependents(*scene, *unit, dependents));
        assert(are_first_edits(*scene, *unit, dependents, given));
        let edits = choose|edits: Seq<LineEdit>| #[trigger]
            are_payload_edits(*scene, *unit, dependents, given, edits) && (if edits_compete(edits)
                || payload_spreads(*scene, *unit, dependents) {
                unit_rows_accounted(*scene, *unit, excerpts@) && unit_drawn(
                    *scene,
                    *unit,
                    basis,
                    excerpts@,
                )
            } else {
                payload_drawn(*scene, *unit, dependents, given, used, excerpts@) && payload_woven(
                    *scene,
                    *unit,
                    dependents,
                    edits,
                    excerpts@,
                )
            });
        if !edits_compete(edits) && !payload_spreads(*scene, *unit, dependents) {
            assert(payload_drawn(*scene, *unit, dependents, given, used, excerpts@));
            let shown = choose|shown: Seq<LineEdit>| #[trigger]
                edits_shown(shown, excerpts@) && all_listed(given, shown) && lists_links(
                    *scene,
                    *unit,
                    dependents,
                    false,
                    shown,
                ) && current_rows_shown(*scene, *unit, excerpts@);
            lemma_lost_rows_shown(*scene, *unit, lost_marks, given, shown, excerpts@);
        }
        assert(payload_planned(*scene, *unit, excerpts@));
    }
    with_signal(excerpts, Signal::Edit, Ghost(*scene))
}

/// Bytes of the name of a node.
fn identity_marks(node: &SyntaxNode) -> (marks: Vec<Span>)
    ensures
        marks@ == match node.identity {
            Some(bytes) => seq![bytes],
            None => Seq::empty(),
        },
{
    let mut marks: Vec<Span> = Vec::new();
    if let Some(bytes) = node.identity {
        marks.push(bytes);
    }
    marks
}

/// How the links of a unit changed.
struct LinkChanges {
    /// Some leaf changed its wrapping.
    rewrapped: bool,
    /// Some leaf or subtree changed its place.
    reordered: bool,
    /// Some leaf changed its text.
    modified: bool,
    /// Some leaf outside the name of the unit changed its text.
    modified_beyond_name: bool,
}

/// The leaf lies in the name of the unit.
fn in_name(unit: &SyntaxNode, leaf: &SyntaxNode) -> (result: bool)
    ensures
        result == lies_in_name(*unit, *leaf),
{
    match unit.identity {
        Some(name) => name.start <= leaf.bytes.start && leaf.bytes.end <= name.end,
        None => false,
    }
}

/// Some subtree or leaf of the unit changed its place.
pub open spec fn unit_reordered(scene: PlanScene<'_>, unit: MatchedUnit) -> bool {
    ||| exists|k: int|
        unit.composites.start <= k < unit.composites.end && (
        #[trigger] scene.graph.tree.composites@[k]).placement is Reordered
    ||| exists|k: int|
        unit.leaf_links.start <= k < unit.leaf_links.end && (
        #[trigger] scene.graph.tree.leaves.links@[k]).placement is Reordered
}

/// Some leaf of the unit changed its wrapping.
pub open spec fn unit_rewrapped(scene: PlanScene<'_>, unit: MatchedUnit) -> bool {
    exists|k: int|
        unit.leaf_links.start <= k < unit.leaf_links.end && (
        #[trigger] scene.graph.tree.leaves.links@[k]).wrapper is Some
}

/// Some leaf of the unit changed its text.
pub open spec fn unit_modified(scene: PlanScene<'_>, unit: MatchedUnit) -> bool {
    exists|k: int|
        unit.leaf_links.start <= k < unit.leaf_links.end && !spells_alike(
            scene,
            #[trigger] scene.graph.tree.leaves.links@[k],
        )
}

/// The leaf lies in the name of the node.
pub open spec fn lies_in_name(unit: SyntaxNode, leaf: SyntaxNode) -> bool {
    unit.identity matches Some(name) && name.start <= leaf.bytes.start && leaf.bytes.end
        <= name.end
}

/// The link changed the text of a leaf, and joins no two leaves of the names of the unit.
pub open spec fn modifies_contents(
    scene: PlanScene<'_>,
    unit: MatchedUnit,
    link: LeafLink,
) -> bool {
    &&& !spells_alike(scene, link)
    &&& !(lies_in_name(
        scene.pair.before.nodes@[unit.before as int],
        scene.pair.before.nodes@[link.before as int],
    ) && lies_in_name(
        scene.pair.after.nodes@[unit.after as int],
        scene.pair.after.nodes@[link.after as int],
    ))
}

/// Some leaf of the unit outside its name changed its text.
pub open spec fn contents_modified(scene: PlanScene<'_>, unit: MatchedUnit) -> bool {
    exists|k: int|
        unit.leaf_links.start <= k < unit.leaf_links.end && modifies_contents(
            scene,
            unit,
            #[trigger] scene.graph.tree.leaves.links@[k],
        )
}

/// Only the name of the unit changed.
pub open spec fn only_renamed(scene: PlanScene<'_>, unit: MatchedUnit) -> bool {
    &&& !named_alike(scene, unit)
    &&& !unpartnered(scene.pair.after, scene.graph.tree.leaves.after@, unit.after as int)
    &&& !unit_reordered(scene, unit)
    &&& !contents_modified(scene, unit)
}

/// Some reparented structure of the unit keeps whole rows.
pub open spec fn retains_reparented(scene: PlanScene<'_>, unit: MatchedUnit) -> bool {
    exists|k: int|
        unit.composites.start <= k < unit.composites.end && is_reparented(
            #[trigger] scene.graph.tree.composites@[k],
        ) && region_of(
            scene,
            scene.graph.tree.composites@[k],
            row_span(scene.pair.before, unit.before as int),
            row_span(scene.pair.after, unit.after as int),
        ) is Some
}

/// The unit with its payload changes is planned by lines: it lost payload by more than wrapping,
/// it holds another name and other contents, or reparented structure keeps whole rows.
pub open spec fn reviewed_by_lines(scene: PlanScene<'_>, unit: MatchedUnit) -> bool {
    ||| unpartnered(scene.pair.before, scene.graph.tree.leaves.before@, unit.before as int) && !(
    unit_rewrapped(scene, unit) && !unit_reordered(scene, unit) && !unit_modified(scene, unit))
    ||| !named_alike(scene, unit) && !only_renamed(scene, unit)
    ||| retains_reparented(scene, unit)
}

/// The edits that a unit with payload changes starts from: its comments, and the old rows that
/// lost payload touches.
pub open spec fn are_first_edits(
    scene: PlanScene<'_>,
    unit: MatchedUnit,
    dependents: PresentationDependents,
    given: Seq<LineEdit>,
) -> bool {
    exists|marks: Seq<Span>| #[trigger]
        marks_unpartnered(
            scene.pair.before,
            scene.graph.tree.leaves.before@,
            unit.before as int,
            marks,
        ) && forall|edit: LineEdit| #[trigger]
            given.contains(edit) <==> is_comment_edit(scene, unit, dependents, edit)
                || is_touched_row(
                scene,
                row_span(scene.pair.before, unit.before as int),
                marks,
                edit,
            )
}

/// A unit with payload changes is planned by lines where its edits compete or spread; elsewhere
/// its rows with lost or added payload are shown, and its lines are claimed once.
pub open spec fn payload_planned(
    scene: PlanScene<'_>,
    unit: MatchedUnit,
    excerpts: Seq<Excerpt>,
) -> bool {
    exists|dependents: PresentationDependents, given: Seq<LineEdit>, edits: Seq<LineEdit>|
        are_unit_dependents(scene, unit, dependents) && are_first_edits(
            scene,
            unit,
            dependents,
            given,
        ) && #[trigger] are_payload_edits(scene, unit, dependents, given, edits) && (
        if edits_compete(edits) || payload_spreads(scene, unit, dependents) {
            unit_rows_accounted(scene, unit, excerpts) && unit_drawn(
                scene,
                unit,
                syntax_basis(scene, unit),
                excerpts,
            )
        } else {
            payload_rows_shown(scene, unit, excerpts) && payload_woven(
                scene,
                unit,
                dependents,
                edits,
                excerpts,
            )
        })
}

/// Comments of the unit are edits, and beside them its rows are unchanged or reflow.
pub open spec fn comments_planned(
    scene: PlanScene<'_>,
    unit: MatchedUnit,
    excerpts: Seq<Excerpt>,
) -> bool {
    exists|dependents: PresentationDependents, edits: Seq<LineEdit>|
        are_unit_dependents(scene, unit, dependents) && #[trigger] are_comment_edits(
            scene,
            unit,
            dependents,
            edits,
        ) && reflow_woven(scene, unit, edits, excerpts)
}

/// Look through the links of a unit.
fn link_changes(scene: &PlanScene<'_>, unit: &MatchedUnit) -> (changes: LinkChanges)
    requires
        scene.wf(),
        scene.unit_fits(*unit),
    ensures
        changes.rewrapped == unit_rewrapped(*scene, *unit),
        changes.reordered == unit_reordered(*scene, *unit),
        changes.modified == unit_modified(*scene, *unit),
        changes.modified_beyond_name == contents_modified(*scene, *unit),
{
    let mut changes = LinkChanges {
        rewrapped: false,
        reordered: false,
        modified: false,
        modified_beyond_name: false,
    };
    let mut index = unit.composites.start;
    while index < unit.composites.end
        invariant
            scene.wf(),
            scene.unit_fits(*unit),
            unit.composites.start <= index <= unit.composites.end,
            !changes.rewrapped && !changes.modified && !changes.modified_beyond_name,
            changes.reordered == exists|k: int|
                unit.composites.start <= k < index && (
                #[trigger] scene.graph.tree.composites@[k]).placement is Reordered,
        decreases unit.composites.end - index,
    {
        let link = scene.graph.tree.composites[index];
        assert(link == scene.graph.tree.composites@[index as int]);
        if matches!(link.placement, Placement::Reordered) {
            changes.reordered = true;
        }
        index += 1;
    }
    let ghost moved = changes.reordered;
    let mut index = unit.leaf_links.start;
    while index < unit.leaf_links.end
        invariant
            scene.wf(),
            scene.unit_fits(*unit),
            unit.leaf_links.start <= index <= unit.leaf_links.end,
            changes.rewrapped == exists|k: int|
                unit.leaf_links.start <= k < index && (
                #[trigger] scene.graph.tree.leaves.links@[k]).wrapper is Some,
            changes.reordered == (moved || exists|k: int|
                unit.leaf_links.start <= k < index && (
                #[trigger] scene.graph.tree.leaves.links@[k]).placement is Reordered),
            changes.modified == exists|k: int|
                unit.leaf_links.start <= k < index && !spells_alike(
                    *scene,
                    #[trigger] scene.graph.tree.leaves.links@[k],
                ),
            changes.modified_beyond_name == exists|k: int|
                unit.leaf_links.start <= k < index && modifies_contents(
                    *scene,
                    *unit,
                    #[trigger] scene.graph.tree.leaves.links@[k],
                ),
        decreases unit.leaf_links.end - index,
    {
        let link = scene.graph.tree.leaves.links[index];
        assert(link == scene.graph.tree.leaves.links@[index as int]);
        if matches!(link.placement, Placement::Reordered) {
            changes.reordered = true;
        }
        if link.wrapper.is_some() {
            changes.rewrapped = true;
        }
        let old_leaf = &scene.pair.before.nodes[link.before];
        let new_leaf = &scene.pair.after.nodes[link.after];
        if !same_bytes(
            scene.pair.before.source.as_bytes(),
            old_leaf.bytes.start,
            old_leaf.bytes.end,
            scene.pair.after.source.as_bytes(),
            new_leaf.bytes.start,
            new_leaf.bytes.end,
        ) {
            assert(!spells_alike(*scene, scene.graph.tree.leaves.links@[index as int]));
            changes.modified = true;
            if !in_name(&scene.pair.before.nodes[unit.before], old_leaf) || !in_name(
                &scene.pair.after.nodes[unit.after],
                new_leaf,
            ) {
                assert(modifies_contents(
                    *scene,
                    *unit,
                    scene.graph.tree.leaves.links@[index as int],
                ));
                changes.modified_beyond_name = true;
            }
        }
        index += 1;
    }
    changes
}

/// Signal of a unit that only one revision holds.
pub open spec fn lone_signal(tree: SyntaxTree, id: int) -> Signal {
    match tree.nodes@[id].review {
        Some(review) => if review.mode == ReviewMode::Compact {
            Signal::Wiring
        } else {
            Signal::Edit
        },
        None => Signal::Edit,
    }
}

/// Signal of a unit that only one revision holds.
fn one_sided_signal(tree: &SyntaxTree, id: NodeId) -> (signal: Signal)
    requires
        tree.has_node(id as int),
    ensures
        signal == lone_signal(*tree, id as int),
{
    match tree.nodes[id].review {
        Some(review) => if matches!(review.mode, ReviewMode::Compact) {
            Signal::Wiring
        } else {
            Signal::Edit
        },
        None => Signal::Edit,
    }
}

/// Plan one unit edit.
fn plan_unit_edit(scene: &PlanScene<'_>, edit: UnitEdit, preceding: usize) -> (fragments: Vec<Fragment>)
    requires
        scene.wf(),
        crate::correspondence::tree::edit_fits(
            edit,
            scene.pair.before.nodes@.len() as int,
            scene.pair.after.nodes@.len() as int,
            scene.graph.tree.leaves.links@.len() as int,
            scene.graph.tree.composites@.len() as int,
        ),
    ensures
        fragments_fit(*scene, fragments@),
        edit_planned(*scene, edit, fragments@),
        edit_placed(*scene, edit, preceding as int, fragments@),
{
    proof {
        reveal(edit_planned);
    }
    match edit {
        UnitEdit::Matched(unit) => plan_matched_unit(scene, &unit),
        UnitEdit::Removed { before } => {
            let mut fragments: Vec<Fragment> = Vec::new();
            let signal = one_sided_signal(&scene.pair.before, before);
            if let Some(excerpt) = plan_one_sided_lines(scene, before, true) {
                let order = SourceOrder::removal(
                    AfterGap::new(preceding),
                    scene.pair.before.nodes[before].lines.start,
                );
                fragments.push(Fragment { signal, excerpt, order_hint: Some(order) });
            }
            fragments
        },
        UnitEdit::Added { after } => {
            let mut fragments: Vec<Fragment> = Vec::new();
            let signal = one_sided_signal(&scene.pair.after, after);
            if let Some(excerpt) = plan_one_sided_lines(scene, after, false) {
                fragments.push(Fragment { signal, excerpt, order_hint: None });
            }
            fragments
        },
    }
}

/// Current lines up to the end of a unit edit, if it has any.
fn lines_through(scene: &PlanScene<'_>, edit: UnitEdit, preceding: usize) -> (lines: usize)
    requires
        crate::correspondence::tree::edit_fits(
            edit,
            scene.pair.before.nodes@.len() as int,
            scene.pair.after.nodes@.len() as int,
            scene.graph.tree.leaves.links@.len() as int,
            scene.graph.tree.composites@.len() as int,
        ),
    ensures
        lines == last_line(*scene, edit, preceding as int),
{
    let end = match edit {
        UnitEdit::Matched(unit) => scene.pair.after.nodes[unit.after].lines.end,
        UnitEdit::Added { after } => scene.pair.after.nodes[after].lines.end,
        UnitEdit::Removed { .. } => 0,
    };
    if end > 0 && end - 1 > preceding {
        end - 1
    } else {
        preceding
    }
}

/// Last current line of the unit edit, or the given one where it comes later.
pub open spec fn last_line(scene: PlanScene<'_>, edit: UnitEdit, preceding: int) -> int {
    let end = match edit {
        UnitEdit::Matched(unit) => scene.pair.after.nodes@[unit.after as int].lines.end as int,
        UnitEdit::Added { after } => scene.pair.after.nodes@[after as int].lines.end as int,
        UnitEdit::Removed { before } => 0,
    };
    if end - 1 > preceding {
        end - 1
    } else {
        preceding
    }
}

/// Current lines up to the last one of the first reviewed units.
pub open spec fn lines_before(scene: PlanScene<'_>, part: int) -> int
    decreases part,
{
    if part <= 0 {
        0
    } else {
        last_line(
            scene,
            scene.graph.tree.units@[scene.graph.source.review_units@[part - 1] as int],
            lines_before(scene, part - 1),
        )
    }
}

/// A removed unit stands in the gap behind the given lines; fragments of other units stand where
/// their lines do.
pub open spec fn edit_placed(
    scene: PlanScene<'_>,
    edit: UnitEdit,
    preceding: int,
    fragments: Seq<Fragment>,
) -> bool {
    forall|k: int|
        0 <= k < fragments.len() ==> match edit {
            UnitEdit::Removed { before } => (#[trigger] fragments[k]).order_hint matches Some(order)
                && order.after_gap.lines == preceding && order.deletion == Some(
                scene.pair.before.nodes@[before as int].lines.start,
            ) && fragments[k].signal == lone_signal(scene.pair.before, before as int),
            UnitEdit::Added { after } => fragments[k].order_hint is None && fragments[k].signal
                == lone_signal(scene.pair.after, after as int),
            UnitEdit::Matched(unit) => fragments[k].order_hint is None && fragments[k].signal
                == unit_signal(unit),
        }
}

/// Fragments of a fallback account for all of its rows.
#[verifier::opaque]
pub open spec fn region_planned(
    scene: PlanScene<'_>,
    fallback: LineFallback,
    fragments: Seq<Fragment>,
) -> bool {
    &&& all_signal(fragments, Signal::Edit)
    &&& forall|row: int|
        fallback.before.has(row) ==> #[trigger] crate::plan::excerpts::old_row_accounted(
            scene,
            excerpts_of(fragments),
            row,
        )
    &&& forall|row: int|
        fallback.after.has(row) ==> #[trigger] crate::plan::excerpts::new_row_accounted(
            scene,
            excerpts_of(fragments),
            row,
        )
    &&& region_drawn(
        scene,
        fallback.before,
        fallback.after,
        Seq::empty(),
        AnchorBasis::Physical,
        excerpts_of(fragments),
    )
    &&& region_explained(
        scene,
        fallback.before,
        fallback.after,
        Seq::empty(),
        None,
        AnchorBasis::Physical,
        excerpts_of(fragments),
    )
}

/// The fragments between two cuts plan the part: a reviewed unit, or past those a fallback.
pub open spec fn part_planned(
    scene: PlanScene<'_>,
    part: int,
    fragments: Seq<Fragment>,
) -> bool {
    let units = scene.graph.source.review_units@;
    if part < units.len() {
        let edit = scene.graph.tree.units@[units[part] as int];
        edit_planned(scene, edit, fragments) && edit_placed(
            scene,
            edit,
            lines_before(scene, part),
            fragments,
        )
    } else {
        region_planned(scene, scene.graph.source.fallbacks@[part - units.len()], fragments)
    }
}

/// The cuts part the fragments into what plans the first parts, and nothing else.
#[verifier::opaque]
pub open spec fn parts_planned(
    scene: PlanScene<'_>,
    fragments: Seq<Fragment>,
    cuts: Seq<int>,
    count: int,
) -> bool {
    &&& cuts.len() == count + 1
    &&& cuts[0] == 0
    &&& cuts[count] == fragments.len()
    &&& forall|k: int|
        0 <= k < count ==> is_run(fragments, #[trigger] cuts[k], cuts[k + 1]) && part_planned(
            scene,
            k,
            fragments.subrange(cuts[k], cuts[k + 1]),
        )
}

/// The fragments plan every reviewed unit and every fallback once, in order, and nothing else.
pub open spec fn file_planned(scene: PlanScene<'_>, fragments: Seq<Fragment>) -> bool {
    exists|cuts: Seq<int>| #[trigger]
        parts_planned(
            scene,
            fragments,
            cuts,
            (scene.graph.source.review_units@.len() + scene.graph.source.fallbacks@.len()) as int,
        )
}

/// One more part.
proof fn lemma_part_appended(
    scene: PlanScene<'_>,
    earlier: Seq<Fragment>,
    cuts: Seq<int>,
    count: int,
    added: Seq<Fragment>,
)
    requires
        count >= 0,
        parts_planned(scene, earlier, cuts, count),
        part_planned(scene, count, added),
    ensures
        parts_planned(
            scene,
            earlier + added,
            cuts.push((earlier.len() + added.len()) as int),
            count + 1,
        ),
{
    reveal(parts_planned);
    let all = earlier + added;
    let more = cuts.push(all.len() as int);
    assert forall|k: int| 0 <= k < count + 1 implies is_run(
        all,
        #[trigger] more[k],
        more[k + 1],
    ) && part_planned(scene, k, all.subrange(more[k], more[k + 1])) by {
        assert(more[k] == cuts[k]);
        if k < count {
            assert(more[k + 1] == cuts[k + 1]);
            assert(is_run(earlier, cuts[k], cuts[k + 1]));
            assert(all.subrange(more[k], more[k + 1]) =~= earlier.subrange(cuts[k], cuts[k + 1]));
        } else {
            assert(all.subrange(more[k], more[k + 1]) =~= added);
        }
    }
}

/// Plan all unit edits outside fallbacks, then the fallbacks.
pub fn plan_units(scene: &PlanScene<'_>) -> (fragments: Vec<Fragment>)
    requires
        scene.wf(),
    ensures
        fragments_fit(*scene, fragments@),
        forall|k: int|
            0 <= k < scene.graph.source.review_units@.len() ==> unit_edit_planned(
                *scene,
                #[trigger] scene.graph.source.review_units@[k],
                fragments@,
            ),
        file_planned(*scene, fragments@),
{
    let mut fragments: Vec<Fragment> = Vec::new();
    let mut preceding: usize = 0;
    let ghost mut cuts: Seq<int> = seq![0];
    assert(parts_planned(*scene, fragments@, cuts, 0)) by {
        reveal(parts_planned);
    }
    let mut index: usize = 0;
    while index < scene.graph.source.review_units.len()
        invariant
            scene.wf(),
            index <= scene.graph.source.review_units@.len(),
            fragments_fit(*scene, fragments@),
            parts_planned(*scene, fragments@, cuts, index as int),
            preceding == lines_before(*scene, index as int),
            forall|k: int|
                0 <= k < index ==> unit_edit_planned(
                    *scene,
                    #[trigger] scene.graph.source.review_units@[k],
                    fragments@,
                ),
        decreases scene.graph.source.review_units@.len() - index,
    {
        let position = scene.graph.source.review_units[index];
        let ghost earlier = fragments@;
        proof {
            assert(scene.graph.source.review_units@[index as int] < scene.graph.tree.units@.len());
            assert(crate::correspondence::tree::edit_fits(
                scene.graph.tree.units@[position as int],
                scene.pair.before.nodes@.len() as int,
                scene.pair.after.nodes@.len() as int,
                scene.graph.tree.leaves.links@.len() as int,
                scene.graph.tree.composites@.len() as int,
            ));
        }
        let edit = scene.graph.tree.units[position];
        let mut planned = plan_unit_edit(scene, edit, preceding);
        preceding = lines_through(scene, edit, preceding);
        let ghost added = planned@;
        append_fragments(scene, &mut fragments, &mut planned);
        proof {
            lemma_part_appended(*scene, earlier, cuts, index as int, added);
            cuts = cuts.push((earlier.len() + added.len()) as int);
            lemma_run_planned(*scene, position, earlier, added);
            assert(earlier.is_prefix_of(fragments@)) by {
                assert(fragments@.take(earlier.len() as int) =~= earlier);
            }
            assert forall|k: int| 0 <= k < index + 1 implies unit_edit_planned(
                *scene,
                #[trigger] scene.graph.source.review_units@[k],
                fragments@,
            ) by {
                if k < index {
                    lemma_still_planned(
                        *scene,
                        scene.graph.source.review_units@[k],
                        earlier,
                        fragments@,
                    );
                }
            }
        }
        index += 1;
    }
    let ghost units = fragments@;
    assert(fallbacks_planned(*scene, units, fragments@, cuts, 0)) by {
        reveal(fallbacks_planned);
    }
    let all = append_fallbacks(scene, &mut fragments, Ghost(units), Ghost(cuts));
    proof {
        lemma_fallbacks_planned(*scene, units, fragments@, all@);
    }
    proof {
        assert forall|k: int|
            0 <= k < scene.graph.source.review_units@.len() implies unit_edit_planned(
            *scene,
            #[trigger] scene.graph.source.review_units@[k],
            fragments@,
        ) by {
            lemma_still_planned(
                *scene,
                scene.graph.source.review_units@[k],
                units,
                fragments@,
            );
        }
    }
    fragments
}

/// A range of positions.
pub open spec fn is_run(fragments: Seq<Fragment>, start: int, end: int) -> bool {
    0 <= start <= end <= fragments.len()
}

/// Consecutive fragments plan the unit edit.
pub open spec fn unit_edit_planned(
    scene: PlanScene<'_>,
    position: usize,
    fragments: Seq<Fragment>,
) -> bool {
    exists|start: int, end: int| #[trigger]
        is_run(fragments, start, end) && edit_planned(
            scene,
            scene.graph.tree.units@[position as int],
            fragments.subrange(start, end),
        )
}

/// What fragments of a unit edit must show.
#[verifier::opaque]
pub open spec fn edit_planned(
    scene: PlanScene<'_>,
    edit: UnitEdit,
    fragments: Seq<Fragment>,
) -> bool {
    match edit {
        UnitEdit::Matched(unit) => unit_planned(scene, unit, fragments),
        UnitEdit::Removed { before } => one_sided_planned(scene, before as int, true, fragments),
        UnitEdit::Added { after } => one_sided_planned(scene, after as int, false, fragments),
    }
}

/// All rows of a unit that only one revision holds are replaced by nothing, or replace nothing.
pub open spec fn one_sided_planned(
    scene: PlanScene<'_>,
    id: int,
    removed: bool,
    fragments: Seq<Fragment>,
) -> bool {
    let rows = side_row_span(scene, id, removed);
    let nothing = Span { start: 0, end: 0 };
    if rows.empty() {
        fragments.len() == 0
    } else {
        fragments.len() == 1 && fragments[0].excerpt.changes@.len() == 1 && is_replacement(
            fragments[0].excerpt.changes@[0],
            if removed {
                rows
            } else {
                nothing
            },
            if removed {
                nothing
            } else {
                rows
            },
        )
    }
}

/// Fragments appended for a unit edit plan it.
proof fn lemma_run_planned(
    scene: PlanScene<'_>,
    position: usize,
    earlier: Seq<Fragment>,
    added: Seq<Fragment>,
)
    requires
        edit_planned(scene, scene.graph.tree.units@[position as int], added),
    ensures
        unit_edit_planned(scene, position, earlier + added),
{
    let all = earlier + added;
    let start = earlier.len() as int;
    let end = all.len() as int;
    assert(all.subrange(start, end) =~= added);
    assert(is_run(all, start, end));
}

/// Further fragments hide no unit.
proof fn lemma_still_planned(
    scene: PlanScene<'_>,
    position: usize,
    earlier: Seq<Fragment>,
    later: Seq<Fragment>,
)
    requires
        earlier.is_prefix_of(later),
        unit_edit_planned(scene, position, earlier),
    ensures
        unit_edit_planned(scene, position, later),
{
    let (start, end) = choose|start: int, end: int| #[trigger]
        is_run(earlier, start, end) && edit_planned(
            scene,
            scene.graph.tree.units@[position as int],
            earlier.subrange(start, end),
        );
    assert(later.subrange(start, end) =~= earlier.subrange(start, end));
    assert(is_run(later, start, end));
}

/// Append fragments that fit.
fn append_fragments(scene: &PlanScene<'_>, fragments: &mut Vec<Fragment>, added: &mut Vec<Fragment>)
    requires
        fragments_fit(*scene, old(fragments)@),
        fragments_fit(*scene, old(added)@),
    ensures
        fragments_fit(*scene, final(fragments)@),
        final(fragments)@ == old(fragments)@ + old(added)@,
{
    let ghost first = fragments@;
    let ghost second = added@;
    fragments.append(added);
    proof {
        assert(fragments@ =~= first + second);
        assert forall|k: int| 0 <= k < fragments@.len() implies (
        #[trigger] fragments@[k]).excerpt.fits(*scene) by {
            if k >= first.len() {
                assert(fragments@[k] == second[k - first.len()]);
            }
        }
    }
}

/// Plan a fallback by physical lines.
fn plan_fallback(scene: &PlanScene<'_>, fallback: LineFallback) -> (fragments: Vec<Fragment>)
    requires
        scene.wf(),
        crate::correspondence::lines::fallback_fits(*scene.pair, fallback),
    ensures
        fragments_fit(*scene, fragments@),
        region_planned(*scene, fallback, fragments@),
{
    let no_links: Vec<NodeLink> = Vec::new();
    let excerpts = plan_line_region(
        scene,
        fallback.before,
        fallback.after,
        no_links.as_slice(),
        None,
        AnchorBasis::Physical,
    );
    reveal(region_planned);
    assert(no_links@ =~= Seq::empty());
    with_signal(excerpts, Signal::Edit, Ghost(*scene))
}

/// Fragments of a fallback plan its part.
proof fn lemma_fallback_part(
    scene: PlanScene<'_>,
    index: int,
    earlier: Seq<Fragment>,
    cuts: Seq<int>,
    added: Seq<Fragment>,
)
    requires
        0 <= index < scene.graph.source.fallbacks@.len(),
        parts_planned(scene, earlier, cuts, scene.graph.source.review_units@.len() + index),
        region_planned(scene, scene.graph.source.fallbacks@[index], added),
    ensures
        parts_planned(
            scene,
            earlier + added,
            cuts.push((earlier.len() + added.len()) as int),
            scene.graph.source.review_units@.len() + index + 1,
        ),
        earlier.is_prefix_of(earlier + added),
{
    let part = scene.graph.source.review_units@.len() + index;
    assert(part_planned(scene, part, added));
    lemma_part_appended(scene, earlier, cuts, part, added);
    assert((earlier + added).take(earlier.len() as int) =~= earlier);
}

/// The fragments plan all reviewed units and the first fallbacks, behind given fragments.
#[verifier::opaque]
spec fn fallbacks_planned(
    scene: PlanScene<'_>,
    start: Seq<Fragment>,
    fragments: Seq<Fragment>,
    cuts: Seq<int>,
    count: int,
) -> bool {
    &&& fragments_fit(scene, fragments)
    &&& start.is_prefix_of(fragments)
    &&& parts_planned(scene, fragments, cuts, scene.graph.source.review_units@.len() + count)
}

/// Append the fragments of one fallback region.
fn append_fallback(
    scene: &PlanScene<'_>,
    fragments: &mut Vec<Fragment>,
    planned: &mut Vec<Fragment>,
    Ghost(index): Ghost<int>,
    Ghost(start): Ghost<Seq<Fragment>>,
    Ghost(cuts): Ghost<Seq<int>>,
) -> (more: Ghost<Seq<int>>)
    requires
        0 <= index < scene.graph.source.fallbacks@.len(),
        fragments_fit(*scene, old(planned)@),
        region_planned(*scene, scene.graph.source.fallbacks@[index], old(planned)@),
        fallbacks_planned(*scene, start, old(fragments)@, cuts, index),
    ensures
        fallbacks_planned(*scene, start, final(fragments)@, more@, index + 1),
{
    reveal(fallbacks_planned);
    let ghost earlier = fragments@;
    let ghost added = planned@;
    append_fragments(scene, fragments, planned);
    proof {
        lemma_fallback_part(*scene, index, earlier, cuts, added);
        assert(fragments@.take(start.len() as int) =~= earlier.take(start.len() as int));
    }
    Ghost(cuts.push((earlier.len() + added.len()) as int))
}

/// All fallbacks planned complete the file.
proof fn lemma_fallbacks_planned(
    scene: PlanScene<'_>,
    start: Seq<Fragment>,
    fragments: Seq<Fragment>,
    cuts: Seq<int>,
)
    requires
        fallbacks_planned(
            scene,
            start,
            fragments,
            cuts,
            scene.graph.source.fallbacks@.len() as int,
        ),
    ensures
        fragments_fit(scene, fragments),
        start.is_prefix_of(fragments),
        file_planned(scene, fragments),
{
    reveal(fallbacks_planned);
    let count = (scene.graph.source.review_units@.len() + scene.graph.source.fallbacks@.len()) as int;
    assert(parts_planned(scene, fragments, cuts, count));
}

/// Append the excerpts of all fallback regions.
fn append_fallbacks(
    scene: &PlanScene<'_>,
    fragments: &mut Vec<Fragment>,
    Ghost(start): Ghost<Seq<Fragment>>,
    Ghost(cuts): Ghost<Seq<int>>,
) -> (more: Ghost<Seq<int>>)
    requires
        scene.wf(),
        fallbacks_planned(*scene, start, old(fragments)@, cuts, 0),
    ensures
        fallbacks_planned(
            *scene,
            start,
            final(fragments)@,
            more@,
            scene.graph.source.fallbacks@.len() as int,
        ),
{
    let mut all: Ghost<Seq<int>> = Ghost(cuts);
    let mut index: usize = 0;
    while index < scene.graph.source.fallbacks.len()
        invariant
            scene.wf(),
            index <= scene.graph.source.fallbacks@.len(),
            fallbacks_planned(*scene, start, fragments@, all@, index as int),
        decreases scene.graph.source.fallbacks@.len() - index,
    {
        let fallback = scene.graph.source.fallbacks[index];
        assert(crate::correspondence::lines::fallback_fits(
            *scene.pair,
            scene.graph.source.fallbacks@[index as int],
        ));
        let mut planned = plan_fallback(scene, fallback);
        all = append_fallback(
            scene,
            fragments,
            &mut planned,
            Ghost(index as int),
            Ghost(start),
            all,
        );
        index += 1;
    }
    all
}

/// Plan whole files line by line.
///
/// Every row of either file is shown or unchanged.
pub fn plan_whole_file_lines(scene: &PlanScene<'_>) -> (fragments: Vec<Fragment>)
    requires
        scene.wf(),
    ensures
        fragments_fit(*scene, fragments@),
        all_signal(fragments@, Signal::Edit),
        forall|row: int|
            0 <= row < scene.before_count()
                ==> #[trigger] crate::plan::excerpts::old_row_accounted(
                *scene,
                excerpts_of(fragments@),
                row,
            ),
        forall|row: int|
            0 <= row < scene.after_count() ==> #[trigger] crate::plan::excerpts::new_row_accounted(
                *scene,
                excerpts_of(fragments@),
                row,
            ),
        region_drawn(
            *scene,
            all_rows(scene.pair.before.source),
            all_rows(scene.pair.after.source),
            scene.graph.tree.composites@,
            AnchorBasis::Physical,
            excerpts_of(fragments@),
        ),
        region_explained(
            *scene,
            all_rows(scene.pair.before.source),
            all_rows(scene.pair.after.source),
            scene.graph.tree.composites@,
            None,
            AnchorBasis::Physical,
            excerpts_of(fragments@),
        ),
{
    let before = Span { start: 0, end: scene.pair.before.source.line_count() };
    let after = Span { start: 0, end: scene.pair.after.source.line_count() };
    proof {
        assert forall|k: int|
            0 <= k < scene.graph.tree.composites@.len() implies scene.graph.tree.composites@.contains(
            #[trigger] scene.graph.tree.composites@[k],
        ) by {}
    }
    let excerpts = plan_line_region(
        scene,
        before,
        after,
        scene.graph.tree.composites.as_slice(),
        None,
        AnchorBasis::Physical,
    );
    proof {
        assert forall|row: int|
            0 <= row < scene.before_count() implies #[trigger] crate::plan::excerpts::old_row_accounted(
            *scene,
            excerpts@,
            row,
        ) by {
            assert(before.has(row));
        }
        assert forall|row: int|
            0 <= row < scene.after_count() implies #[trigger] crate::plan::excerpts::new_row_accounted(
            *scene,
            excerpts@,
            row,
        ) by {
            assert(after.has(row));
        }
    }
    with_signal(excerpts, Signal::Edit, Ghost(*scene))
}

} // verus!

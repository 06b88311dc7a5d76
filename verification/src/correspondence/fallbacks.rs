//! Choose linewise review where syntax would omit a change or claim a row twice.

use crate::correspondence::geometry::{
    adjacent_blank_lines, is_blank_row, range_contains, range_union, row_span, spans_meet, spans_overlap,
    union_of, zero_based_lines,
};
use crate::correspondence::lines::{fallback_fits, fallbacks_fit, is_ending_edit, RowPairs};
use crate::correspondence::links::{
    ContentRelation, LineFallback, LineLink, MatchedUnit, Placement, UnitEdit,
};
use crate::correspondence::partners::repeated;
use crate::correspondence::tree::{edit_fits, TreeDiff};
use crate::source::Source;
use crate::span::Span;
use crate::syntax::{LayoutOwnership, NodeId, SyntaxPair, SyntaxTree};
use vstd::prelude::*;

verus! {

/// Rows of one unit edit.
#[derive(Clone, Copy)]
pub struct UnitLineGeometry {
    pub before: Span,
    pub after: Span,
    pub changed: bool,
    /// Whether a fallback that touches the unit grows over it.
    pub expands_fallback: bool,
}

/// The rows exist.
pub open spec fn geometry_fits(pair: SyntaxPair, unit: UnitLineGeometry) -> bool {
    &&& unit.before.start <= unit.before.end <= pair.before.source.line_seq().len()
    &&& unit.after.start <= unit.after.end <= pair.after.source.line_seq().len()
}

/// Whether a unit edit changes anything by itself.
pub open spec fn edit_changes(edit: UnitEdit) -> bool {
    match edit {
        UnitEdit::Matched(unit) => unit.relation != ContentRelation::SourceEqual || unit.placement
            != Placement::Stable,
        _ => true,
    }
}

/// Whether two fallbacks share a row in either revision.
pub open spec fn fallbacks_meet(left: LineFallback, right: LineFallback) -> bool {
    spans_meet(left.before, right.before) || spans_meet(left.after, right.after)
}

/// No two fallbacks share a row in either revision.
pub open spec fn fallbacks_apart(fallbacks: Seq<LineFallback>) -> bool {
    forall|i: int, j: int|
        0 <= i < fallbacks.len() && 0 <= j < fallbacks.len() && i != j ==> !fallbacks_meet(
            #[trigger] fallbacks[i],
            #[trigger] fallbacks[j],
        )
}

/// Every row of the inner span lies in the outer one.
pub open spec fn span_covers(outer: Span, inner: Span) -> bool {
    inner.empty() || (outer.start <= inner.start && inner.end <= outer.end)
}

/// Every row of one fallback lies in the other.
pub open spec fn fallback_covers(outer: LineFallback, inner: LineFallback) -> bool {
    span_covers(outer.before, inner.before) && span_covers(outer.after, inner.after)
}

/// Some fallback of a list holds all rows of the given one.
pub open spec fn covered_by(fallbacks: Seq<LineFallback>, inner: LineFallback) -> bool {
    exists|k: int| 0 <= k < fallbacks.len() && fallback_covers(#[trigger] fallbacks[k], inner)
}

/// The fallback holds no row.
pub open spec fn is_nothing(fallback: LineFallback) -> bool {
    fallback.before.empty() && fallback.after.empty()
}

/// The list holds the rows of every part, each in one fallback.
pub open spec fn parts_covered(cover: Seq<LineFallback>, parts: Seq<LineFallback>) -> bool {
    forall|k: int|
        0 <= k < parts.len() && !is_nothing(#[trigger] parts[k]) ==> covered_by(cover, parts[k])
}

/// Disjoint fallbacks that hold the rows of every part.
pub open spec fn is_cover(cover: Seq<LineFallback>, parts: Seq<LineFallback>) -> bool {
    fallbacks_apart(cover) && parts_covered(cover, parts)
}

/// No disjoint fallbacks over the parts are smaller than the found ones.
pub open spec fn is_finest(found: Seq<LineFallback>, parts: Seq<LineFallback>) -> bool {
    forall|cover: Seq<LineFallback>| #[trigger]
        is_cover(cover, parts) ==> parts_covered(cover, found)
}

/// Disjoint fallbacks are their own finest cover, so that merging them again changes nothing.
pub proof fn merging_is_idempotent(fallbacks: Seq<LineFallback>)
    requires
        fallbacks_apart(fallbacks),
    ensures
        is_cover(fallbacks, fallbacks),
        is_finest(fallbacks, fallbacks),
{
    assert forall|k: int| 0 <= k < fallbacks.len() implies covered_by(
        fallbacks,
        #[trigger] fallbacks[k],
    ) by {
        assert(fallback_covers(fallbacks[k], fallbacks[k]));
    }
}

/// Whether the rows of a unit are all paired at equal offsets.
fn unit_lines_are_physically_paired(pairs: &RowPairs, before: Span, after: Span) -> (paired: bool)
    requires
        before.start <= before.end <= pairs.partners.before@.len(),
        after.start <= after.end,
    ensures
        paired == (before.end - before.start == after.end - after.start && forall|k: int|
            before.start <= k < before.end ==> (#[trigger] pairs.partners.before@[k]) == Some(
                (after.start + (k - before.start)) as usize,
            )),
{
    if before.end - before.start != after.end - after.start {
        return false;
    }
    let mut row = before.start;
    while row < before.end
        invariant
            before.start <= row <= before.end <= pairs.partners.before@.len(),
            before.end - before.start == after.end - after.start,
            forall|k: int|
                before.start <= k < row ==> (#[trigger] pairs.partners.before@[k]) == Some(
                    (after.start + (k - before.start)) as usize,
                ),
        decreases before.end - row,
    {
        let expected = after.start + (row - before.start);
        let same = match pairs.partners.before[row] {
            Some(found) => found == expected,
            None => false,
        };
        if !same {
            assert(pairs.partners.before@[row as int] != Some(
                (after.start + (row - before.start)) as usize,
            ));
            return false;
        }
        row += 1;
    }
    true
}

/// The rows are all paired at equal offsets.
pub open spec fn rows_paired(pairs: RowPairs, before: Span, after: Span) -> bool {
    before.end - before.start == after.end - after.start && forall|k: int|
        before.start <= k < before.end ==> (#[trigger] pairs.partners.before@[k]) == Some(
            (after.start + (k - before.start)) as usize,
        )
}

/// Old rows of a unit edit.
pub open spec fn edit_before(pair: SyntaxPair, edit: UnitEdit) -> Span {
    match edit {
        UnitEdit::Matched(unit) => row_span(pair.before, unit.before as int),
        UnitEdit::Removed { before } => row_span(pair.before, before as int),
        UnitEdit::Added { after } => Span { start: 0, end: 0 },
    }
}

/// Current rows of a unit edit.
pub open spec fn edit_after(pair: SyntaxPair, edit: UnitEdit) -> Span {
    match edit {
        UnitEdit::Matched(unit) => row_span(pair.after, unit.after as int),
        UnitEdit::Removed { before } => Span { start: 0, end: 0 },
        UnitEdit::Added { after } => row_span(pair.after, after as int),
    }
}

/// Rows of a unit edit, and how a fallback treats them.
pub open spec fn geometry_of(
    pair: SyntaxPair,
    pairs: RowPairs,
    edit: UnitEdit,
) -> UnitLineGeometry {
    UnitLineGeometry {
        before: edit_before(pair, edit),
        after: edit_after(pair, edit),
        changed: edit_changes(edit),
        expands_fallback: !rows_paired(pairs, edit_before(pair, edit), edit_after(pair, edit)),
    }
}

/// Rows of all unit edits.
pub open spec fn geometries_of(
    pair: SyntaxPair,
    pairs: RowPairs,
    tree: TreeDiff,
) -> Seq<UnitLineGeometry> {
    Seq::new(tree.units@.len(), |k: int| geometry_of(pair, pairs, tree.units@[k]))
}

/// Rows of a unit edit, and how a fallback treats them.
pub fn unit_line_geometry(pair: &SyntaxPair, pairs: &RowPairs, edit: &UnitEdit) -> (geometry:
    UnitLineGeometry)
    requires
        pairs.ok(*pair),
        edit_rows_exist(*pair, *edit),
    ensures
        geometry_fits(*pair, geometry),
        geometry.changed == edit_changes(*edit),
        edit matches UnitEdit::Matched(unit) ==> geometry.before == row_span(
            pair.before,
            unit.before as int,
        ) && geometry.after == row_span(pair.after, unit.after as int),
        edit matches UnitEdit::Removed { before } ==> geometry.before == row_span(
            pair.before,
            *before as int,
        ) && geometry.after.empty(),
        edit matches UnitEdit::Added { after } ==> geometry.after == row_span(
            pair.after,
            *after as int,
        ) && geometry.before.empty(),
        geometry == geometry_of(*pair, *pairs, *edit),
{
    let none = Span { start: 0, end: 0 };
    let (before, after, changed) = match edit {
        UnitEdit::Matched(unit) => (
            zero_based_lines(&pair.before, unit.before),
            zero_based_lines(&pair.after, unit.after),
            unit.relation != ContentRelation::SourceEqual || unit.placement != Placement::Stable,
        ),
        UnitEdit::Removed { before } => (zero_based_lines(&pair.before, *before), none, true),
        UnitEdit::Added { after } => (none, zero_based_lines(&pair.after, *after), true),
    };
    let expands_fallback = !unit_lines_are_physically_paired(pairs, before, after);
    UnitLineGeometry { before, after, changed, expands_fallback }
}

/// The edit names nodes that exist.
pub open spec fn edit_rows_exist(pair: SyntaxPair, edit: UnitEdit) -> bool {
    match edit {
        UnitEdit::Matched(unit) => pair.before.has_node(unit.before as int) && pair.after.has_node(
            unit.after as int,
        ),
        UnitEdit::Removed { before } => pair.before.has_node(before as int),
        UnitEdit::Added { after } => pair.after.has_node(after as int),
    }
}

/// The rows of a unit agree byte for byte, terminators included.
pub open spec fn rows_equal(pair: SyntaxPair, unit: UnitLineGeometry) -> bool {
    unit.before.end - unit.before.start == unit.after.end - unit.after.start && forall|k: int|
        0 <= k < unit.before.end - unit.before.start ==> rows_same(
            pair,
            #[trigger] (unit.before.start + k),
            unit.after.start + k,
        )
}

/// Some unit among the first shows the old row: it changes, or its rows agree byte for byte.
pub open spec fn shows_before(
    pair: SyntaxPair,
    units: Seq<UnitLineGeometry>,
    count: int,
    row: int,
) -> bool {
    exists|k: int|
        0 <= k < count && (#[trigger] units[k]).before.has(row) && (units[k].changed || rows_equal(
            pair,
            units[k],
        ))
}

/// Some unit among the first shows the current row.
pub open spec fn shows_after(
    pair: SyntaxPair,
    units: Seq<UnitLineGeometry>,
    count: int,
    row: int,
) -> bool {
    exists|k: int|
        0 <= k < count && (#[trigger] units[k]).after.has(row) && (units[k].changed || rows_equal(
            pair,
            units[k],
        ))
}

/// Some fallback holds the old row.
pub open spec fn covers_before(fallbacks: Seq<LineFallback>, row: int) -> bool {
    exists|k: int| 0 <= k < fallbacks.len() && (#[trigger] fallbacks[k]).before.has(row)
}

/// Some fallback holds the current row.
pub open spec fn covers_after(fallbacks: Seq<LineFallback>, row: int) -> bool {
    exists|k: int| 0 <= k < fallbacks.len() && (#[trigger] fallbacks[k]).after.has(row)
}

/// The later list starts with the earlier one.
pub open spec fn starts_with(later: Seq<LineFallback>, earlier: Seq<LineFallback>) -> bool {
    earlier.len() <= later.len() && forall|k: int|
        0 <= k < earlier.len() ==> (#[trigger] later[k]) == earlier[k]
}

/// No current row is paired with the old row.
pub open spec fn unpaired_before(pairs: RowPairs, row: int) -> bool {
    pairs.partners.before@[row] is None
}

/// No old row is paired with the current row.
pub open spec fn unpaired_after(pairs: RowPairs, row: int) -> bool {
    forall|i: int|
        0 <= i < pairs.partners.before@.len() ==> (#[trigger] pairs.partners.before@[i]) != Some(
            row as usize,
        )
}

/// Whether the rows of a unit agree byte for byte, terminators included.
fn unit_lines_are_source_equal(pair: &SyntaxPair, unit: &UnitLineGeometry) -> (equal: bool)
    requires
        pair.wf(),
        geometry_fits(*pair, *unit),
    ensures
        equal == rows_equal(*pair, *unit),
{
    if unit.before.end - unit.before.start != unit.after.end - unit.after.start {
        return false;
    }
    let mut offset: usize = 0;
    while offset < unit.before.end - unit.before.start
        invariant
            pair.wf(),
            geometry_fits(*pair, *unit),
            unit.before.end - unit.before.start == unit.after.end - unit.after.start,
            offset <= unit.before.end - unit.before.start,
            forall|k: int|
                0 <= k < offset ==> rows_same(
                    *pair,
                    #[trigger] (unit.before.start + k),
                    unit.after.start + k,
                ),
        decreases unit.before.end - unit.before.start - offset,
    {
        if !pair.before.source.same_full_text(
            unit.before.start + offset,
            &pair.after.source,
            unit.after.start + offset,
        ) {
            assert(!rows_same(*pair, unit.before.start + offset, unit.after.start + offset));
            return false;
        }
        offset += 1;
    }
    true
}

/// Two rows agree byte for byte.
pub open spec fn rows_same(pair: SyntaxPair, before: int, after: int) -> bool {
    pair.before.source.line_full(pair.before.source.line_seq()[before])
        == pair.after.source.line_full(pair.after.source.line_seq()[after])
}

/// Rows accounted for in each revision.
struct Claims {
    before: Vec<bool>,
    after: Vec<bool>,
}

/// Rows agree in number and, one by one, byte for byte.
pub open spec fn runs_agree(pair: SyntaxPair, before: Seq<usize>, after: Seq<usize>) -> bool {
    before.len() == after.len() && forall|k: int|
        0 <= k < before.len() ==> rows_same(pair, (#[trigger] before[k]) as int, after[k] as int)
}

/// The blank rows directly before or behind a boundary, in order.
pub open spec fn are_adjacent_blanks(
    source: Source,
    boundary: int,
    before: bool,
    rows: Seq<usize>,
) -> bool {
    &&& forall|k: int|
        0 <= k < rows.len() ==> (#[trigger] rows[k]) == (if before {
            boundary - rows.len() + k
        } else {
            boundary + k
        }) && is_blank_row(source, rows[k] as int)
    &&& if before {
        !is_blank_row(source, boundary - rows.len() - 1)
    } else {
        !is_blank_row(source, boundary + rows.len())
    }
}

/// Both nodes of the unit own the blank rows around them.
pub open spec fn owns_blanks(pair: SyntaxPair, unit: MatchedUnit) -> bool {
    (pair.before.nodes@[unit.before as int].review matches Some(review) && review.layout
        == LayoutOwnership::AdjacentBlankLines) && (
    pair.after.nodes@[unit.after as int].review matches Some(review) && review.layout
        == LayoutOwnership::AdjacentBlankLines)
}

/// Rows are accounted for besides those that were, where the runs agree.
spec fn adds_runs(
    pair: SyntaxPair,
    before: Seq<usize>,
    after: Seq<usize>,
    earlier: Claims,
    later: Claims,
) -> bool {
    &&& later.before@.len() == earlier.before@.len()
    &&& later.after@.len() == earlier.after@.len()
    &&& forall|i: int|
        0 <= i < later.before@.len() ==> (#[trigger] later.before@[i] <==> earlier.before@[i] || (
        runs_agree(pair, before, after) && before.contains(i as usize)))
    &&& forall|i: int|
        0 <= i < later.after@.len() ==> (#[trigger] later.after@[i] <==> earlier.after@[i] || (
        runs_agree(pair, before, after) && after.contains(i as usize)))
}

/// Blank rows around a unit that owns them are accounted for where they agree: those before and
/// those behind it on their own, or, where the unit moved, both together.
spec fn adds_unit_blanks(
    pair: SyntaxPair,
    unit: MatchedUnit,
    leading: (Seq<usize>, Seq<usize>),
    trailing: (Seq<usize>, Seq<usize>),
    middle: Claims,
    earlier: Claims,
    later: Claims,
) -> bool {
    let before = row_span(pair.before, unit.before as int);
    let after = row_span(pair.after, unit.after as int);
    &&& are_adjacent_blanks(pair.before.source, before.start as int, true, leading.0)
    &&& are_adjacent_blanks(pair.after.source, after.start as int, true, leading.1)
    &&& are_adjacent_blanks(pair.before.source, before.end as int, false, trailing.0)
    &&& are_adjacent_blanks(pair.after.source, after.end as int, false, trailing.1)
    &&& if unit.placement == Placement::Reordered {
        adds_runs(
            pair,
            leading.0.reverse() + trailing.0,
            leading.1.reverse() + trailing.1,
            earlier,
            later,
        )
    } else {
        adds_runs(pair, leading.0, leading.1, earlier, middle) && adds_runs(
            pair,
            trailing.0,
            trailing.1,
            middle,
            later,
        )
    }
}

/// What one edit adds to the rows accounted for.
spec fn adds_blanks(pair: SyntaxPair, edit: UnitEdit, earlier: Claims, later: Claims) -> bool {
    if edit is Matched && owns_blanks(pair, edit->Matched_0) {
        exists|
            leading: (Seq<usize>, Seq<usize>),
            trailing: (Seq<usize>, Seq<usize>),
            middle: Claims,
        | #[trigger]
            adds_unit_blanks(
                pair,
                edit->Matched_0,
                leading,
                trailing,
                middle,
                earlier,
                later,
            )
    } else {
        later.before@ == earlier.before@ && later.after@ == earlier.after@
    }
}

/// Each edit in turn adds the blank rows that it owns.
spec fn adds_all_blanks(
    pair: SyntaxPair,
    units: Seq<UnitEdit>,
    states: Seq<Claims>,
    first: Claims,
) -> bool {
    &&& states.len() == units.len() + 1
    &&& states[0] == first
    &&& forall|k: int|
        0 <= k < units.len() ==> adds_blanks(pair, #[trigger] units[k], states[k], states[k + 1])
}

impl Claims {
    spec fn fits(self, pair: SyntaxPair) -> bool {
        self.before@.len() == pair.before.source.line_seq().len() && self.after@.len()
            == pair.after.source.line_seq().len()
    }

    /// Only rows that units show and blank rows are accounted for.
    spec fn sound(self, pair: SyntaxPair, units: Seq<UnitLineGeometry>, count: int) -> bool {
        &&& forall|i: int|
            0 <= i < self.before@.len() && #[trigger] self.before@[i] ==> shows_before(
                pair,
                units,
                count,
                i,
            ) || is_blank_row(pair.before.source, i)
        &&& forall|i: int|
            0 <= i < self.after@.len() && #[trigger] self.after@[i] ==> shows_after(
                pair,
                units,
                count,
                i,
            ) || is_blank_row(pair.after.source, i)
    }

    /// Account for the rows of a unit.
    fn claim_unit(&mut self, unit: &UnitLineGeometry)
        requires
            unit.before.end <= old(self).before@.len(),
            unit.after.end <= old(self).after@.len(),
        ensures
            final(self).before@.len() == old(self).before@.len(),
            final(self).after@.len() == old(self).after@.len(),
            forall|i: int|
                0 <= i < old(self).before@.len() ==> (#[trigger] final(self).before@[i]) == (
                old(self).before@[i] || unit.before.has(i)),
            forall|i: int|
                0 <= i < old(self).after@.len() ==> (#[trigger] final(self).after@[i]) == (
                old(self).after@[i] || unit.after.has(i)),
    {
        increment_claims(&mut self.before, unit.before);
        increment_claims(&mut self.after, unit.after);
    }

    /// Account for two runs of blank rows with the same text.
    fn claim_equal_layout_run(
        &mut self,
        pair: &SyntaxPair,
        before_rows: &Vec<usize>,
        after_rows: &Vec<usize>,
    )
        requires
            pair.wf(),
            old(self).fits(*pair),
            forall|k: int|
                0 <= k < before_rows@.len() ==> is_blank_row(
                    pair.before.source,
                    (#[trigger] before_rows@[k]) as int,
                ),
            forall|k: int|
                0 <= k < after_rows@.len() ==> is_blank_row(
                    pair.after.source,
                    (#[trigger] after_rows@[k]) as int,
                ),
        ensures
            final(self).fits(*pair),
            forall|units: Seq<UnitLineGeometry>, count: int| #[trigger]
                old(self).sound(*pair, units, count) ==> final(self).sound(*pair, units, count),
            adds_runs(*pair, before_rows@, after_rows@, *old(self), *final(self)),
    {
        if before_rows.len() != after_rows.len() {
            return ;
        }
        let mut index: usize = 0;
        while index < before_rows.len()
            invariant
                pair.wf(),
                self.fits(*pair),
                before_rows@.len() == after_rows@.len(),
                index <= before_rows@.len(),
                *self == *old(self),
                forall|k: int|
                    0 <= k < index ==> rows_same(
                        *pair,
                        (#[trigger] before_rows@[k]) as int,
                        after_rows@[k] as int,
                    ),
                forall|k: int|
                    0 <= k < before_rows@.len() ==> is_blank_row(
                        pair.before.source,
                        (#[trigger] before_rows@[k]) as int,
                    ),
                forall|k: int|
                    0 <= k < after_rows@.len() ==> is_blank_row(
                        pair.after.source,
                        (#[trigger] after_rows@[k]) as int,
                    ),
            decreases before_rows@.len() - index,
        {
            if !pair.before.source.same_full_text(
                before_rows[index],
                &pair.after.source,
                after_rows[index],
            ) {
                assert(!rows_same(
                    *pair,
                    before_rows@[index as int] as int,
                    after_rows@[index as int] as int,
                ));
                return ;
            }
            index += 1;
        }
        let mut position: usize = 0;
        while position < before_rows.len()
            invariant
                self.fits(*pair),
                before_rows@.len() == after_rows@.len(),
                position <= before_rows@.len(),
                self.before@.len() == old(self).before@.len(),
                self.after@.len() == old(self).after@.len(),
                forall|i: int|
                    0 <= i < self.before@.len() ==> (#[trigger] self.before@[i]
                        <==> old(self).before@[i] || before_rows@.take(position as int).contains(
                        i as usize,
                    )),
                forall|i: int|
                    0 <= i < self.after@.len() ==> (#[trigger] self.after@[i]
                        <==> old(self).after@[i] || after_rows@.take(position as int).contains(
                        i as usize,
                    )),
                forall|units: Seq<UnitLineGeometry>, count: int| #[trigger]
                    old(self).sound(*pair, units, count) ==> self.sound(*pair, units, count),
                forall|k: int|
                    0 <= k < before_rows@.len() ==> is_blank_row(
                        pair.before.source,
                        (#[trigger] before_rows@[k]) as int,
                    ),
                forall|k: int|
                    0 <= k < after_rows@.len() ==> is_blank_row(
                        pair.after.source,
                        (#[trigger] after_rows@[k]) as int,
                    ),
            decreases before_rows@.len() - position,
        {
            assert(is_blank_row(pair.before.source, before_rows@[position as int] as int));
            assert(is_blank_row(pair.after.source, after_rows@[position as int] as int));
            let ghost earlier = *self;
            self.before.set(before_rows[position], true);
            self.after.set(after_rows[position], true);
            proof {
                assert(self.before.len() <= usize::MAX && self.after.len() <= usize::MAX);
                assert forall|i: int| 0 <= i < self.before@.len() implies (
                #[trigger] self.before@[i] <==> old(self).before@[i] || before_rows@.take(
                    position + 1,
                ).contains(i as usize)) by {
                    lemma_take_next(before_rows@, position as int, i as usize);
                    assert(earlier.before@[i] <==> old(self).before@[i] || before_rows@.take(
                        position as int,
                    ).contains(i as usize));
                }
                assert forall|i: int| 0 <= i < self.after@.len() implies (
                #[trigger] self.after@[i] <==> old(self).after@[i] || after_rows@.take(
                    position + 1,
                ).contains(i as usize)) by {
                    lemma_take_next(after_rows@, position as int, i as usize);
                    assert(earlier.after@[i] <==> old(self).after@[i] || after_rows@.take(
                        position as int,
                    ).contains(i as usize));
                }
                assert forall|units: Seq<UnitLineGeometry>, count: int| #[trigger]
                    old(self).sound(*pair, units, count) implies self.sound(
                    *pair,
                    units,
                    count,
                ) by {
                    assert(earlier.sound(*pair, units, count));
                    assert forall|i: int|
                        0 <= i < self.before@.len() && #[trigger] self.before@[i] implies shows_before(
                        *pair,
                        units,
                        count,
                        i,
                    ) || is_blank_row(pair.before.source, i) by {
                        if i != before_rows@[position as int] {
                            assert(earlier.before@[i]);
                        }
                    }
                    assert forall|i: int|
                        0 <= i < self.after@.len() && #[trigger] self.after@[i] implies shows_after(
                        *pair,
                        units,
                        count,
                        i,
                    ) || is_blank_row(pair.after.source, i) by {
                        if i != after_rows@[position as int] {
                            assert(earlier.after@[i]);
                        }
                    }
                }
            }
            position += 1;
        }
        proof {
            assert(before_rows@.take(position as int) =~= before_rows@);
            assert(after_rows@.take(position as int) =~= after_rows@);
        }
    }

    /// Claim unchanged blank separators with their owners so moves do not create spurious edits.
    fn claim_paired_adjacent_layout(&mut self, pair: &SyntaxPair, tree: &TreeDiff)
        requires
            pair.wf(),
            old(self).fits(*pair),
            tree.fits(pair.before.nodes@.len() as int, pair.after.nodes@.len() as int),
        ensures
            final(self).fits(*pair),
            forall|units: Seq<UnitLineGeometry>, count: int| #[trigger]
                old(self).sound(*pair, units, count) ==> final(self).sound(*pair, units, count),
            exists|states: Seq<Claims>| #[trigger]
                adds_all_blanks(*pair, tree.units@, states, *old(self)) && *final(self)
                    == states.last(),
    {
        let ghost mut states = seq![*self];
        let mut index: usize = 0;
        while index < tree.units.len()
            invariant
                pair.wf(),
                self.fits(*pair),
                forall|units: Seq<UnitLineGeometry>, count: int| #[trigger]
                    old(self).sound(*pair, units, count) ==> self.sound(*pair, units, count),
                tree.fits(pair.before.nodes@.len() as int, pair.after.nodes@.len() as int),
                index <= tree.units@.len(),
                states.len() == index + 1,
                states[0] == *old(self),
                states.last() == *self,
                forall|k: int|
                    0 <= k < index ==> adds_blanks(
                        *pair,
                        #[trigger] tree.units@[k],
                        states[k],
                        states[k + 1],
                    ),
            decreases tree.units@.len() - index,
        {
            assert(edit_fits(
                tree.units@[index as int],
                pair.before.nodes@.len() as int,
                pair.after.nodes@.len() as int,
                tree.leaves.links@.len() as int,
                tree.composites@.len() as int,
            ));
            let ghost earlier = *self;
            let ghost fewer = states;
            if let UnitEdit::Matched(unit) = tree.units[index] {
                self.claim_unit_layout(pair, &unit);
            }
            proof {
                assert(adds_blanks(*pair, tree.units@[index as int], earlier, *self));
                states = states.push(*self);
                assert forall|k: int| 0 <= k < index + 1 implies adds_blanks(
                    *pair,
                    #[trigger] tree.units@[k],
                    states[k],
                    states[k + 1],
                ) by {
                    if k < index {
                        assert(states[k] == fewer[k] && states[k + 1] == fewer[k + 1]);
                    }
                }
            }
            index += 1;
        }
        assert(adds_all_blanks(*pair, tree.units@, states, *old(self)));
    }

    /// Claim the blank rows around one matched unit, where both revisions own them.
    fn claim_unit_layout(&mut self, pair: &SyntaxPair, unit: &MatchedUnit)
        requires
            pair.wf(),
            old(self).fits(*pair),
            unit.before < pair.before.nodes@.len(),
            unit.after < pair.after.nodes@.len(),
        ensures
            final(self).fits(*pair),
            forall|units: Seq<UnitLineGeometry>, count: int| #[trigger]
                old(self).sound(*pair, units, count) ==> final(self).sound(*pair, units, count),
            adds_blanks(*pair, UnitEdit::Matched(*unit), *old(self), *final(self)),
    {
        let ghost start = *self;
        if !owns_adjacent_layout(&pair.before, unit.before) || !owns_adjacent_layout(
            &pair.after,
            unit.after,
        ) {
            return ;
        }
        let before = zero_based_lines(&pair.before, unit.before);
        let after = zero_based_lines(&pair.after, unit.after);
        let mut before_leading = adjacent_blank_lines(&pair.before.source, before.start, true);
        let mut after_leading = adjacent_blank_lines(&pair.after.source, after.start, true);
        let mut before_trailing = adjacent_blank_lines(&pair.before.source, before.end, false);
        let mut after_trailing = adjacent_blank_lines(&pair.after.source, after.end, false);
        let ghost leading = (before_leading@, after_leading@);
        let ghost trailing = (before_trailing@, after_trailing@);
        if unit.placement == Placement::Reordered {
            // A move can turn a leading separator into a trailing one: both sides pair together.
            let mut before_adjacent = reversed(&before_leading);
            let mut after_adjacent = reversed(&after_leading);
            before_adjacent.append(&mut before_trailing);
            after_adjacent.append(&mut after_trailing);
            proof {
                assert forall|k: int| 0 <= k < before_adjacent@.len() implies is_blank_row(
                    pair.before.source,
                    (#[trigger] before_adjacent@[k]) as int,
                ) by {
                    let lead = before_leading@.len() as int;
                    if k < lead {
                        assert(before_adjacent@[k] == before_leading@[lead - 1 - k]);
                    }
                }
                assert forall|k: int| 0 <= k < after_adjacent@.len() implies is_blank_row(
                    pair.after.source,
                    (#[trigger] after_adjacent@[k]) as int,
                ) by {
                    let lead = after_leading@.len() as int;
                    if k < lead {
                        assert(after_adjacent@[k] == after_leading@[lead - 1 - k]);
                    }
                }
            }
            self.claim_equal_layout_run(pair, &before_adjacent, &after_adjacent);
            assert(adds_unit_blanks(*pair, *unit, leading, trailing, start, start, *self));
        } else {
            self.claim_equal_layout_run(pair, &before_leading, &after_leading);
            let ghost middle = *self;
            self.claim_equal_layout_run(pair, &before_trailing, &after_trailing);
            assert(adds_unit_blanks(*pair, *unit, leading, trailing, middle, start, *self));
        }
    }
}

/// One more value of a prefix.
proof fn lemma_take_next(values: Seq<usize>, position: int, value: usize)
    requires
        0 <= position < values.len(),
    ensures
        values.take(position + 1).contains(value) <==> values.take(position).contains(value)
            || value == values[position],
{
    let shorter = values.take(position);
    let longer = values.take(position + 1);
    assert(longer[position] == values[position]);
    if shorter.contains(value) {
        let k = choose|k: int| 0 <= k < shorter.len() && shorter[k] == value;
        assert(longer[k] == value);
    }
    if longer.contains(value) {
        let k = choose|k: int| 0 <= k < longer.len() && longer[k] == value;
        if k < position {
            assert(shorter[k] == value);
        }
    }
}

/// Rows in reverse order.
fn reversed(rows: &Vec<usize>) -> (result: Vec<usize>)
    ensures
        result@ == rows@.reverse(),
{
    let mut result: Vec<usize> = Vec::new();
    let mut index: usize = rows.len();
    while index > 0
        invariant
            index <= rows@.len(),
            result@.len() == rows@.len() - index,
            forall|k: int|
                0 <= k < result@.len() ==> (#[trigger] result@[k]) == rows@[rows@.len() - 1 - k],
        decreases index,
    {
        index -= 1;
        result.push(rows[index]);
    }
    assert(result@ =~= rows@.reverse());
    result
}

/// Whether a unit owns the blank rows around it.
fn owns_adjacent_layout(tree: &SyntaxTree, id: NodeId) -> (result: bool)
    requires
        tree.has_node(id as int),
    ensures
        result == (tree.nodes@[id as int].review matches Some(review) && review.layout
            == LayoutOwnership::AdjacentBlankLines),
{
    match tree.nodes[id].review {
        Some(review) => review.layout == LayoutOwnership::AdjacentBlankLines,
        None => false,
    }
}

/// Account for rows.
fn increment_claims(claims: &mut Vec<bool>, rows: Span)
    requires
        rows.end <= old(claims)@.len(),
    ensures
        final(claims)@.len() == old(claims)@.len(),
        forall|i: int|
            0 <= i < old(claims)@.len() ==> (#[trigger] final(claims)@[i]) == (old(claims)@[i]
                || rows.has(i)),
{
    let ghost earlier = claims@;
    let mut row = rows.start;
    while row < rows.end
        invariant
            rows.end <= claims@.len(),
            claims@.len() == earlier.len(),
            rows.start <= row,
            forall|i: int|
                0 <= i < claims@.len() ==> (#[trigger] claims@[i]) == (earlier[i] || (rows.start
                    <= i < row && i < rows.end)),
        decreases rows.end - row,
    {
        claims.set(row, true);
        row += 1;
    }
}

/// The runs are the maximal ones of unclaimed rows, in order.
pub open spec fn are_unclaimed_runs(rows: Span, claims: Seq<bool>, runs: Seq<Span>) -> bool {
    &&& forall|k: int|
        0 <= k < runs.len() ==> rows.start <= (#[trigger] runs[k]).start < runs[k].end <= rows.end
    &&& forall|k: int, l: int|
        0 <= k < l < runs.len() ==> (#[trigger] runs[k]).end < (#[trigger] runs[l]).start
    &&& forall|i: int|
        rows.start <= i < rows.end ==> (#[trigger] claims[i] <==> !in_runs(runs, i))
}

/// Maximal runs of unclaimed rows.
pub fn unclaimed_runs(rows: Span, claims: &Vec<bool>) -> (runs: Vec<Span>)
    requires
        rows.end <= claims@.len(),
    ensures
        forall|k: int|
            0 <= k < runs@.len() ==> rows.start <= (#[trigger] runs@[k]).start < runs@[k].end
                <= rows.end,
        forall|k: int, l: int|
            0 <= k < l < runs@.len() ==> (#[trigger] runs@[k]).end < (#[trigger] runs@[l]).start,
        forall|i: int|
            rows.start <= i < rows.end ==> (#[trigger] claims@[i] <==> !in_runs(runs@, i)),
{
    let mut runs: Vec<Span> = Vec::new();
    let mut start: Option<usize> = None;
    let mut row = rows.start;
    while row < rows.end
        invariant
            rows.end <= claims@.len(),
            rows.start <= row,
            row <= rows.end || row == rows.start,
            forall|k: int|
                0 <= k < runs@.len() ==> rows.start <= (#[trigger] runs@[k]).start < runs@[k].end
                    < row,
            forall|k: int, l: int|
                0 <= k < l < runs@.len() ==> (#[trigger] runs@[k]).end < (
                #[trigger] runs@[l]).start,
            start matches Some(first) ==> rows.start <= first < row && forall|i: int|
                first <= i < row ==> !#[trigger] claims@[i],
            start matches Some(first) ==> forall|k: int|
                0 <= k < runs@.len() ==> (#[trigger] runs@[k]).end < first,
            start is None && row > rows.start ==> claims@[row - 1],
            forall|i: int|
                rows.start <= i < row ==> (#[trigger] claims@[i] <==> !(in_runs(runs@, i) || (
                start matches Some(first) && first <= i))),
        decreases rows.end - row,
    {
        let ghost earlier = runs@;
        if !claims[row] {
            if start.is_none() {
                proof {
                    assert forall|k: int| 0 <= k < runs@.len() implies (#[trigger] runs@[k]).end
                        < row by {}
                }
                start = Some(row);
            }
        } else if let Some(first) = start {
            runs.push(Span { start: first, end: row });
            start = None;
            proof {
                assert forall|i: int| rows.start <= i < row + 1 implies (#[trigger] claims@[i]
                    <==> !in_runs(runs@, i)) by {
                    lemma_in_runs_push(earlier, Span { start: first, end: row }, i);
                    if i < row {
                        assert(claims@[i] <==> !(in_runs(earlier, i) || first <= i));
                    } else {
                        if in_runs(earlier, i) {
                            let k = choose|k: int|
                                0 <= k < earlier.len() && (#[trigger] earlier[k]).has(i);
                            assert(earlier[k].end < row);
                        }
                    }
                }
            }
        } else {
            proof {
                if in_runs(runs@, row as int) {
                    let k = choose|k: int|
                        0 <= k < runs@.len() && (#[trigger] runs@[k]).has(row as int);
                    assert(runs@[k].end < row);
                }
            }
        }
        row += 1;
    }
    let ghost earlier = runs@;
    if let Some(first) = start {
        runs.push(Span { start: first, end: rows.end });
        proof {
            assert forall|i: int| rows.start <= i < rows.end implies (#[trigger] claims@[i]
                <==> !in_runs(runs@, i)) by {
                lemma_in_runs_push(earlier, Span { start: first, end: rows.end }, i);
                assert(claims@[i] <==> !(in_runs(earlier, i) || first <= i));
            }
        }
    }
    runs
}

/// Some run holds the row.
pub open spec fn in_runs(runs: Seq<Span>, row: int) -> bool {
    exists|k: int| 0 <= k < runs.len() && (#[trigger] runs[k]).has(row)
}

proof fn lemma_in_runs_push(runs: Seq<Span>, run: Span, row: int)
    ensures
        in_runs(runs.push(run), row) == (in_runs(runs, row) || run.has(row)),
{
    let more = runs.push(run);
    if in_runs(runs, row) {
        let k = choose|k: int| 0 <= k < runs.len() && (#[trigger] runs[k]).has(row);
        assert(more[k].has(row));
    }
    if run.has(row) {
        assert(more[runs.len() as int].has(row));
    }
    if in_runs(more, row) {
        let k = choose|k: int| 0 <= k < more.len() && (#[trigger] more[k]).has(row);
        if k < runs.len() {
            assert(runs[k].has(row));
        }
    }
}

/// Position of a one-sided run in the gap of the other revision: at the end of the gap at which it
/// stands, or else as far into it, in proportion.
pub open spec fn counterpart_at(run: Span, own_gap: Span, other_gap: Span) -> int {
    let width = other_gap.end - other_gap.start;
    let ahead = run.start - own_gap.start;
    let product = if width * ahead <= usize::MAX {
        width * ahead
    } else {
        usize::MAX as int
    };
    if run.start == own_gap.start {
        other_gap.start as int
    } else if run.end == own_gap.end {
        other_gap.end as int
    } else {
        other_gap.start + product / (own_gap.end - own_gap.start)
    }
}

/// Where a one-sided run sits in the other revision.
///
/// Runs at either end of the gap stay at that end; runs inside are placed in proportion.
fn empty_counterpart(run: Span, own_gap: Span, other_gap: Span) -> (span: Span)
    requires
        own_gap.start <= run.start < run.end <= own_gap.end,
        other_gap.start <= other_gap.end,
    ensures
        span.start == span.end,
        other_gap.start <= span.start <= other_gap.end,
        run.start == own_gap.start ==> span.start == other_gap.start,
        run.start > own_gap.start && run.end == own_gap.end ==> span.start == other_gap.end,
        span.start == counterpart_at(run, own_gap, other_gap),
{
    let boundary = if run.start == own_gap.start {
        other_gap.start
    } else if run.end == own_gap.end {
        other_gap.end
    } else {
        let width = other_gap.end - other_gap.start;
        let before = run.start - own_gap.start;
        let whole = own_gap.end - own_gap.start;
        let share = match width.checked_mul(before) {
            Some(product) => {
                assert(product / whole <= width) by (nonlinear_arith)
                    requires
                        product == width * before,
                        before <= whole,
                        whole > 0,
                ;
                product / whole
            },
            None => {
                assert(usize::MAX / whole <= width) by (nonlinear_arith)
                    requires
                        width * before > usize::MAX,
                        before <= whole,
                        whole > 0,
                ;
                usize::MAX / whole
            },
        };
        other_gap.start + share
    };
    Span { start: boundary, end: boundary }
}

/// The fallback holds rows, and only rows of the gap.
pub open spec fn lies_in(fallback: LineFallback, before: Span, after: Span) -> bool {
    &&& !is_nothing(fallback)
    &&& before.start <= fallback.before.start <= fallback.before.end <= before.end
    &&& after.start <= fallback.after.start <= fallback.after.end <= after.end
}

/// The fallback of one run, beside the run of the other revision or its place there.
pub open spec fn run_fallback(
    before: Span,
    after: Span,
    before_runs: Seq<Span>,
    after_runs: Seq<Span>,
    index: int,
) -> LineFallback {
    if before_runs.len() == 0 {
        let at = counterpart_at(after_runs[index], after, before) as usize;
        LineFallback { before: Span { start: at, end: at }, after: after_runs[index] }
    } else if after_runs.len() == 0 {
        let at = counterpart_at(before_runs[index], before, after) as usize;
        LineFallback { before: before_runs[index], after: Span { start: at, end: at } }
    } else {
        LineFallback { before: before_runs[index], after: after_runs[index] }
    }
}

/// Runs of both revisions fall back in pairs, or those of one alone; where their numbers differ,
/// the whole gap does.
pub open spec fn gap_fallbacks(
    before: Span,
    after: Span,
    before_runs: Seq<Span>,
    after_runs: Seq<Span>,
) -> Seq<LineFallback> {
    if before_runs.len() != after_runs.len() && before_runs.len() > 0 && after_runs.len() > 0 {
        seq![LineFallback { before, after }]
    } else {
        Seq::new(
            if before_runs.len() > after_runs.len() {
                before_runs.len()
            } else {
                after_runs.len()
            },
            |k: int| run_fallback(before, after, before_runs, after_runs, k),
        )
    }
}

/// The list goes on with the fallbacks of the unclaimed runs of the gap.
spec fn appends_gap(
    claims: Claims,
    before: Span,
    after: Span,
    earlier: Seq<LineFallback>,
    later: Seq<LineFallback>,
) -> bool {
    exists|before_runs: Seq<Span>, after_runs: Seq<Span>|
        are_unclaimed_runs(before, claims.before@, before_runs) && are_unclaimed_runs(
            after,
            claims.after@,
            after_runs,
        ) && later == earlier + #[trigger] gap_fallbacks(before, after, before_runs, after_runs)
}

/// Fallbacks for the unclaimed rows of one gap.
fn unclaimed_gap_fallbacks(
    pair: &SyntaxPair,
    claims: &Claims,
    before: Span,
    after: Span,
    fallbacks: &mut Vec<LineFallback>,
)
    requires
        claims.fits(*pair),
        before.start <= before.end <= pair.before.source.line_seq().len(),
        after.start <= after.end <= pair.after.source.line_seq().len(),
        fallbacks_fit(*pair, old(fallbacks)@),
    ensures
        fallbacks_fit(*pair, final(fallbacks)@),
        final(fallbacks)@.len() >= old(fallbacks)@.len(),
        starts_with(final(fallbacks)@, old(fallbacks)@),
        forall|i: int|
            before.has(i) && !(#[trigger] claims.before@[i]) ==> covers_before(
                final(fallbacks)@,
                i,
            ),
        forall|i: int|
            after.has(i) && !(#[trigger] claims.after@[i]) ==> covers_after(final(fallbacks)@, i),
        forall|k: int|
            old(fallbacks)@.len() <= k < final(fallbacks)@.len() ==> lies_in(
                #[trigger] final(fallbacks)@[k],
                before,
                after,
            ),
        appends_gap(*claims, before, after, old(fallbacks)@, final(fallbacks)@),
{
    let before_runs = unclaimed_runs(before, &claims.before);
    let after_runs = unclaimed_runs(after, &claims.after);
    let ghost count = fallbacks@.len();
    let ghost start = fallbacks@;
    if before_runs.len() != after_runs.len() && before_runs.len() > 0 && after_runs.len() > 0 {
        // Unequal runs cannot be paired without consuming rows already claimed by syntax.
        fallbacks.push(LineFallback { before, after });
        proof {
            assert(before_runs@[0].start < before_runs@[0].end);
            assert(fallbacks@[count as int].before == before && fallbacks@[count as int].after
                == after);
            assert forall|i: int|
                before.has(i) && !(#[trigger] claims.before@[i]) implies covers_before(
                fallbacks@,
                i,
            ) by {
                assert(fallbacks@[count as int].before.has(i));
            }
            assert forall|i: int|
                after.has(i) && !(#[trigger] claims.after@[i]) implies covers_after(
                fallbacks@,
                i,
            ) by {
                assert(fallbacks@[count as int].after.has(i));
            }
            assert(fallbacks@ =~= start + gap_fallbacks(
                before,
                after,
                before_runs@,
                after_runs@,
            ));
        }
        return ;
    }
    let most = if before_runs.len() > after_runs.len() {
        before_runs.len()
    } else {
        after_runs.len()
    };
    let mut index: usize = 0;
    while index < most
        invariant
            before.start <= before.end <= pair.before.source.line_seq().len(),
            after.start <= after.end <= pair.after.source.line_seq().len(),
            fallbacks_fit(*pair, fallbacks@),
            fallbacks@.len() == count + index,
            starts_with(fallbacks@, start),
            count == start.len(),
            forall|k: int|
                count <= k < fallbacks@.len() ==> (#[trigger] fallbacks@[k]) == run_fallback(
                    before,
                    after,
                    before_runs@,
                    after_runs@,
                    k - count,
                ),
            forall|k: int|
                count <= k < fallbacks@.len() ==> lies_in(
                    #[trigger] fallbacks@[k],
                    before,
                    after,
                ) && (before_runs@.len() > 0 ==> fallbacks@[k].before == before_runs@[k - count])
                    && (after_runs@.len() > 0 ==> fallbacks@[k].after == after_runs@[k - count]),
            index <= most,
            before_runs@.len() == most || before_runs@.len() == 0,
            after_runs@.len() == most || after_runs@.len() == 0,
            most > 0 ==> before_runs@.len() == most || after_runs@.len() == most,
            forall|k: int|
                0 <= k < before_runs@.len() ==> before.start <= (#[trigger] before_runs@[k]).start
                    < before_runs@[k].end <= before.end,
            forall|k: int|
                0 <= k < after_runs@.len() ==> after.start <= (#[trigger] after_runs@[k]).start
                    < after_runs@[k].end <= after.end,
        decreases most - index,
    {
        let fallback = if before_runs.len() == 0 {
            let run = after_runs[index];
            assert(after_runs@[index as int] == run);
            LineFallback { before: empty_counterpart(run, after, before), after: run }
        } else if after_runs.len() == 0 {
            let run = before_runs[index];
            assert(before_runs@[index as int] == run);
            LineFallback { before: run, after: empty_counterpart(run, before, after) }
        } else {
            assert(before_runs@[index as int].end <= before.end);
            assert(after_runs@[index as int].end <= after.end);
            LineFallback { before: before_runs[index], after: after_runs[index] }
        };
        fallbacks.push(fallback);
        index += 1;
    }
    proof {
        assert forall|i: int|
            before.has(i) && !(#[trigger] claims.before@[i]) implies covers_before(
            fallbacks@,
            i,
        ) by {
            assert(in_runs(before_runs@, i));
            let k = choose|k: int|
                0 <= k < before_runs@.len() && (#[trigger] before_runs@[k]).has(i);
            assert(fallbacks@[count + k].before == before_runs@[k]);
        }
        assert forall|i: int|
            after.has(i) && !(#[trigger] claims.after@[i]) implies covers_after(
            fallbacks@,
            i,
        ) by {
            assert(in_runs(after_runs@, i));
            let k = choose|k: int|
                0 <= k < after_runs@.len() && (#[trigger] after_runs@[k]).has(i);
            assert(fallbacks@[count + k].after == after_runs@[k]);
        }
        assert(fallbacks@ =~= start + gap_fallbacks(before, after, before_runs@, after_runs@));
    }
}

/// A matched unit that moved without changing.
pub open spec fn is_exact_move(unit: MatchedUnit) -> bool {
    unit.placement == Placement::Reordered && unit.relation.strength() >= 2
}

/// The unit moved without changing, and its rows hold the one-sided region.
pub open spec fn edit_owns_terminator(
    pair: SyntaxPair,
    edit: UnitEdit,
    fallback: LineFallback,
) -> bool {
    edit matches UnitEdit::Matched(unit) && is_exact_move(unit) && if fallback.after.empty() {
        span_covers(row_span(pair.before, unit.before as int), fallback.before)
    } else {
        span_covers(row_span(pair.after, unit.after as int), fallback.after)
    }
}

/// The unit moved without changing, and holds both rows.
pub open spec fn edit_owns_rows(pair: SyntaxPair, edit: UnitEdit, link: LineLink) -> bool {
    edit matches UnitEdit::Matched(unit) && is_exact_move(unit) && row_span(
        pair.before,
        unit.before as int,
    ).has(link.before as int) && row_span(pair.after, unit.after as int).has(link.after as int)
}

/// Whether a moved unit reports a missing terminator itself; global alignment may place its
/// empty counterpart far from the move.
fn move_owns_missing_terminator(pair: &SyntaxPair, tree: &TreeDiff, fallback: &LineFallback) -> (owned:
    bool)
    requires
        tree.fits(pair.before.nodes@.len() as int, pair.after.nodes@.len() as int),
    ensures
        owned == terminator_owned(*pair, *tree, *fallback),
{
    if fallback.before.is_empty() == fallback.after.is_empty() {
        return false;
    }
    let mut index: usize = 0;
    while index < tree.units.len()
        invariant
            tree.fits(pair.before.nodes@.len() as int, pair.after.nodes@.len() as int),
            index <= tree.units@.len(),
            fallback.before.empty() != fallback.after.empty(),
            forall|k: int|
                0 <= k < index ==> !edit_owns_terminator(
                    *pair,
                    #[trigger] tree.units@[k],
                    *fallback,
                ),
        decreases tree.units@.len() - index,
    {
        assert(edit_fits(
            tree.units@[index as int],
            pair.before.nodes@.len() as int,
            pair.after.nodes@.len() as int,
            tree.leaves.links@.len() as int,
            tree.composites@.len() as int,
        ));
        if let UnitEdit::Matched(unit) = tree.units[index] {
            if unit.placement == Placement::Reordered && unit.relation.full_equal() {
                let inside = if fallback.after.is_empty() {
                    range_contains(zero_based_lines(&pair.before, unit.before), fallback.before)
                } else {
                    range_contains(zero_based_lines(&pair.after, unit.after), fallback.after)
                };
                if inside {
                    assert(edit_owns_terminator(*pair, tree.units@[index as int], *fallback));
                    return true;
                }
            }
        }
        index += 1;
    }
    false
}

/// Check whether an exact move can present this terminator edit itself.
fn move_owns_line_ending(pair: &SyntaxPair, tree: &TreeDiff, link: LineLink) -> (owned: bool)
    requires
        tree.fits(pair.before.nodes@.len() as int, pair.after.nodes@.len() as int),
    ensures
        owned == rows_owned(*pair, *tree, link),
{
    let mut index: usize = 0;
    while index < tree.units.len()
        invariant
            tree.fits(pair.before.nodes@.len() as int, pair.after.nodes@.len() as int),
            index <= tree.units@.len(),
            forall|k: int|
                0 <= k < index ==> !edit_owns_rows(*pair, #[trigger] tree.units@[k], link),
        decreases tree.units@.len() - index,
    {
        assert(edit_fits(
            tree.units@[index as int],
            pair.before.nodes@.len() as int,
            pair.after.nodes@.len() as int,
            tree.leaves.links@.len() as int,
            tree.composites@.len() as int,
        ));
        if let UnitEdit::Matched(unit) = tree.units[index] {
            if unit.placement == Placement::Reordered && unit.relation.full_equal()
                && zero_based_lines(&pair.before, unit.before).contains(link.before)
                && zero_based_lines(&pair.after, unit.after).contains(link.after) {
                assert(edit_owns_rows(*pair, tree.units@[index as int], link));
                return true;
            }
        }
        index += 1;
    }
    false
}

/// Rows of a unit on one side.
pub open spec fn side_of(unit: UnitLineGeometry, before_side: bool) -> Span {
    if before_side {
        unit.before
    } else {
        unit.after
    }
}

/// Some fallback holds the row of the side.
pub open spec fn covers_side(fallbacks: Seq<LineFallback>, row: int, before_side: bool) -> bool {
    if before_side {
        covers_before(fallbacks, row)
    } else {
        covers_after(fallbacks, row)
    }
}

/// Two of the first units hold the row, and one of them changes.
pub open spec fn is_contested(
    units: Seq<UnitLineGeometry>,
    count: int,
    row: int,
    before_side: bool,
) -> bool {
    exists|a: int, b: int|
        0 <= a < b < count && side_of(#[trigger] units[a], before_side).has(row) && side_of(
            #[trigger] units[b],
            before_side,
        ).has(row) && (units[a].changed || units[b].changed)
}

/// Rows of both units together.
pub open spec fn joint(left: UnitLineGeometry, right: UnitLineGeometry) -> LineFallback {
    LineFallback {
        before: union_of(left.before, right.before),
        after: union_of(left.after, right.after),
    }
}

/// The fallback holds two units that share a row, one of them changing.
pub open spec fn is_conflict(units: Seq<UnitLineGeometry>, fallback: LineFallback) -> bool {
    exists|a: int, b: int|
        #![trigger units[a], units[b]]
        0 <= a < b < units.len() && fallback == joint(units[a], units[b]) && (units[a].changed
            || units[b].changed) && (spans_meet(units[a].before, units[b].before) || spans_meet(
            units[a].after,
            units[b].after,
        ))
}

/// The last of the first units that holds each row.
spec fn are_owners(
    owners: Seq<Option<usize>>,
    units: Seq<UnitLineGeometry>,
    count: int,
    before_side: bool,
) -> bool {
    forall|row: int|
        0 <= row < owners.len() ==> match #[trigger] owners[row] {
            Some(owner) => owner < count && side_of(units[owner as int], before_side).has(row)
                && forall|k: int|
                owner < k < count ==> !side_of(#[trigger] units[k], before_side).has(row),
            None => forall|k: int|
                0 <= k < count ==> !side_of(#[trigger] units[k], before_side).has(row),
        }
}

/// Contested rows of the first units are covered.
spec fn contests_covered(
    fallbacks: Seq<LineFallback>,
    units: Seq<UnitLineGeometry>,
    count: int,
    before_side: bool,
) -> bool {
    forall|row: int| #[trigger]
        is_contested(units, count, row, before_side) ==> covers_side(fallbacks, row, before_side)
}

/// A longer list covers what the shorter one does.
proof fn lemma_covers_more(later: Seq<LineFallback>, earlier: Seq<LineFallback>)
    requires
        starts_with(later, earlier),
    ensures
        forall|row: int, before_side: bool| #[trigger]
            covers_side(earlier, row, before_side) ==> covers_side(later, row, before_side),
        forall|row: int| #[trigger] covers_before(earlier, row) ==> covers_before(later, row),
        forall|row: int| #[trigger] covers_after(earlier, row) ==> covers_after(later, row),
{
    assert forall|row: int| #[trigger] covers_before(earlier, row) implies covers_before(
        later,
        row,
    ) by {
        let k = choose|k: int|
            0 <= k < earlier.len() && (#[trigger] earlier[k]).before.has(row);
        assert(later[k].before.has(row));
    }
    assert forall|row: int| #[trigger] covers_after(earlier, row) implies covers_after(
        later,
        row,
    ) by {
        let k = choose|k: int| 0 <= k < earlier.len() && (#[trigger] earlier[k]).after.has(row);
        assert(later[k].after.has(row));
    }
}

/// Units that claim a row of another unit, where either of them changes.
fn conflicting_unit_fallbacks(
    pair: &SyntaxPair,
    units: &Vec<UnitLineGeometry>,
    fallbacks: &mut Vec<LineFallback>,
)
    requires
        pair.wf(),
        geometries_fit(*pair, units@),
        fallbacks_fit(*pair, old(fallbacks)@),
    ensures
        fallbacks_fit(*pair, final(fallbacks)@),
        starts_with(final(fallbacks)@, old(fallbacks)@),
        forall|k: int|
            old(fallbacks)@.len() <= k < final(fallbacks)@.len() ==> is_conflict(
                units@,
                #[trigger] final(fallbacks)@[k],
            ),
        forall|row: int| #[trigger]
            is_contested(units@, units@.len() as int, row, true) ==> covers_before(
                final(fallbacks)@,
                row,
            ),
        forall|row: int| #[trigger]
            is_contested(units@, units@.len() as int, row, false) ==> covers_after(
                final(fallbacks)@,
                row,
            ),
{
    let mut before_owner: Vec<Option<usize>> = crate::correspondence::partners::nothing(
        pair.before.source.line_count(),
    );
    let mut after_owner: Vec<Option<usize>> = crate::correspondence::partners::nothing(
        pair.after.source.line_count(),
    );
    let ghost start = fallbacks@;
    let mut index: usize = 0;
    while index < units.len()
        invariant
            pair.wf(),
            geometries_fit(*pair, units@),
            fallbacks_fit(*pair, fallbacks@),
            starts_with(fallbacks@, start),
            index <= units@.len(),
            before_owner@.len() == pair.before.source.line_seq().len(),
            after_owner@.len() == pair.after.source.line_seq().len(),
            are_owners(before_owner@, units@, index as int, true),
            are_owners(after_owner@, units@, index as int, false),
            contests_covered(fallbacks@, units@, index as int, true),
            contests_covered(fallbacks@, units@, index as int, false),
            forall|k: int|
                start.len() <= k < fallbacks@.len() ==> is_conflict(
                    units@,
                    #[trigger] fallbacks@[k],
                ),
        decreases units@.len() - index,
    {
        assert(geometry_fits(*pair, units@[index as int]));
        let ghost first = fallbacks@;
        record_claim_conflicts(pair, units, index, true, &mut before_owner, fallbacks);
        let ghost second = fallbacks@;
        proof {
            lemma_covers_more(second, first);
            assert(contests_covered(second, units@, index as int, false)) by {
                assert forall|row: int| #[trigger]
                    is_contested(units@, index as int, row, false) implies covers_side(
                    second,
                    row,
                    false,
                ) by {
                    assert(covers_side(first, row, false));
                }
            }
        }
        record_claim_conflicts(pair, units, index, false, &mut after_owner, fallbacks);
        proof {
            lemma_covers_more(fallbacks@, second);
            assert(contests_covered(fallbacks@, units@, index + 1, true)) by {
                assert forall|row: int| #[trigger]
                    is_contested(units@, index + 1, row, true) implies covers_side(
                    fallbacks@,
                    row,
                    true,
                ) by {
                    assert(covers_side(second, row, true));
                }
            }
            assert forall|k: int| start.len() <= k < fallbacks@.len() implies is_conflict(
                units@,
                #[trigger] fallbacks@[k],
            ) by {
                if k < first.len() {
                    assert(second[k] == first[k] && fallbacks@[k] == second[k]);
                } else if k < second.len() {
                    assert(fallbacks@[k] == second[k]);
                }
            }
            assert forall|k: int| 0 <= k < start.len() implies (#[trigger] fallbacks@[k])
                == start[k] by {
                assert(first[k] == start[k] && second[k] == first[k]);
            }
        }
        index += 1;
    }
    proof {
        assert forall|row: int| #[trigger]
            is_contested(units@, units@.len() as int, row, true) implies covers_before(
            fallbacks@,
            row,
        ) by {
            assert(covers_side(fallbacks@, row, true));
        }
        assert forall|row: int| #[trigger]
            is_contested(units@, units@.len() as int, row, false) implies covers_after(
            fallbacks@,
            row,
        ) by {
            assert(covers_side(fallbacks@, row, false));
        }
    }
}

pub open spec fn geometries_fit(pair: SyntaxPair, units: Seq<UnitLineGeometry>) -> bool {
    forall|k: int| 0 <= k < units.len() ==> geometry_fits(pair, #[trigger] units[k])
}

/// The union of two fitting spans fits.
proof fn lemma_union_fits(left: Span, right: Span, count: int)
    requires
        left.start <= left.end <= count,
        right.start <= right.end <= count,
    ensures
        union_of(left, right).start <= union_of(left, right).end <= count,
        span_covers(union_of(left, right), left),
        span_covers(union_of(left, right), right),
{
}

/// Rows of the unit up to one row are taken over, and the others are as they were.
spec fn takes_over(
    owners: Seq<Option<usize>>,
    earlier: Seq<Option<usize>>,
    owner: usize,
    rows: Span,
    row: int,
) -> bool {
    owners.len() == earlier.len() && forall|i: int|
        0 <= i < owners.len() ==> (#[trigger] owners[i]) == if rows.start <= i < row && i < rows.end
        {
            Some(owner)
        } else {
            earlier[i]
        }
}

/// Rows up to one row whose earlier owner conflicts are covered.
spec fn conflicts_covered(
    fallbacks: Seq<LineFallback>,
    earlier: Seq<Option<usize>>,
    units: Seq<UnitLineGeometry>,
    owner: usize,
    rows: Span,
    row: int,
    before_side: bool,
) -> bool {
    forall|i: int|
        rows.start <= i < row ==> ((#[trigger] earlier[i]) matches Some(previous) ==> (
        units[previous as int].changed || units[owner as int].changed ==> covers_side(
            fallbacks,
            i,
            before_side,
        )))
}

/// Taking over the rows of one more unit.
proof fn lemma_owners_step(
    fallbacks: Seq<LineFallback>,
    first: Seq<LineFallback>,
    owners: Seq<Option<usize>>,
    earlier: Seq<Option<usize>>,
    units: Seq<UnitLineGeometry>,
    owner: usize,
    before_side: bool,
)
    requires
        owner < units.len(),
        side_of(units[owner as int], before_side).end <= owners.len(),
        are_owners(earlier, units, owner as int, before_side),
        contests_covered(first, units, owner as int, before_side),
        starts_with(fallbacks, first),
        takes_over(
            owners,
            earlier,
            owner,
            side_of(units[owner as int], before_side),
            side_of(units[owner as int], before_side).end as int,
        ),
        conflicts_covered(
            fallbacks,
            earlier,
            units,
            owner,
            side_of(units[owner as int], before_side),
            side_of(units[owner as int], before_side).end as int,
            before_side,
        ),
    ensures
        are_owners(owners, units, owner + 1, before_side),
        contests_covered(fallbacks, units, owner + 1, before_side),
{
    let rows = side_of(units[owner as int], before_side);
    lemma_covers_more(fallbacks, first);
    assert forall|row: int| 0 <= row < owners.len() implies match #[trigger] owners[row] {
        Some(found) => found < owner + 1 && side_of(units[found as int], before_side).has(row)
            && forall|k: int|
            found < k < owner + 1 ==> !side_of(#[trigger] units[k], before_side).has(row),
        None => forall|k: int|
            0 <= k < owner + 1 ==> !side_of(#[trigger] units[k], before_side).has(row),
    } by {
        if !rows.has(row) {
            assert(owners[row] == earlier[row]);
        }
    }
    assert forall|row: int| #[trigger]
        is_contested(units, owner + 1, row, before_side) implies covers_side(
        fallbacks,
        row,
        before_side,
    ) by {
        let (a, b) = choose|a: int, b: int|
            0 <= a < b < owner + 1 && side_of(#[trigger] units[a], before_side).has(row)
                && side_of(#[trigger] units[b], before_side).has(row) && (units[a].changed
                || units[b].changed);
        if b < owner {
            assert(is_contested(units, owner as int, row, before_side));
        } else {
            assert(earlier[row] is Some);
            let previous = earlier[row]->0 as int;
            assert(a <= previous);
            if !(units[previous].changed || units[owner as int].changed) {
                assert(a < previous);
                assert(is_contested(units, owner as int, row, before_side));
            }
        }
    }
}

/// Take over the rows of a unit, and record earlier owners as conflicts.
#[verifier::rlimit(40)]
fn record_claim_conflicts(
    pair: &SyntaxPair,
    units: &Vec<UnitLineGeometry>,
    owner: usize,
    before_side: bool,
    owners: &mut Vec<Option<usize>>,
    fallbacks: &mut Vec<LineFallback>,
)
    requires
        geometries_fit(*pair, units@),
        owner < units@.len(),
        fallbacks_fit(*pair, old(fallbacks)@),
        are_owners(old(owners)@, units@, owner as int, before_side),
        contests_covered(old(fallbacks)@, units@, owner as int, before_side),
        old(owners)@.len() == (if before_side {
            pair.before.source.line_seq().len()
        } else {
            pair.after.source.line_seq().len()
        }),
    ensures
        fallbacks_fit(*pair, final(fallbacks)@),
        starts_with(final(fallbacks)@, old(fallbacks)@),
        final(owners)@.len() == old(owners)@.len(),
        are_owners(final(owners)@, units@, owner + 1, before_side),
        contests_covered(final(fallbacks)@, units@, owner + 1, before_side),
        forall|k: int|
            old(fallbacks)@.len() <= k < final(fallbacks)@.len() ==> is_conflict(
                units@,
                #[trigger] final(fallbacks)@[k],
            ),
{
    assert(geometry_fits(*pair, units@[owner as int]));
    let rows = if before_side {
        units[owner].before
    } else {
        units[owner].after
    };
    let mut last: Option<usize> = None;
    let ghost first = fallbacks@;
    let ghost earlier = owners@;
    let mut row = rows.start;
    while row < rows.end
        invariant
            geometries_fit(*pair, units@),
            owner < units@.len(),
            rows == side_of(units@[owner as int], before_side),
            fallbacks_fit(*pair, fallbacks@),
            starts_with(fallbacks@, first),
            are_owners(earlier, units@, owner as int, before_side),
            takes_over(owners@, earlier, owner, rows, row as int),
            conflicts_covered(
                fallbacks@,
                earlier,
                units@,
                owner,
                rows,
                row as int,
                before_side,
            ),
            rows.start <= row,
            rows.start <= rows.end ==> row <= rows.end,
            rows.end <= owners@.len(),
            last matches Some(previous) ==> previous < owner && (units@[previous as int].changed
                || units@[owner as int].changed ==> covers_joint(
                fallbacks@,
                units@[previous as int],
                units@[owner as int],
            )),
            forall|k: int|
                first.len() <= k < fallbacks@.len() ==> is_conflict(
                    units@,
                    #[trigger] fallbacks@[k],
                ),
        decreases rows.end - row,
    {
        let ghost shorter = fallbacks@;
        assert(owners@[row as int] == earlier[row as int]);
        if let Some(previous) = owners[row] {
            let repeated = match last {
                Some(last) => last == previous,
                None => false,
            };
            if previous != owner && !repeated && (units[previous].changed || units[owner].changed) {
                let left = units[previous];
                let right = units[owner];
                proof {
                    assert(earlier[row as int] == Some(previous));
                    assert(geometry_fits(*pair, units@[previous as int]));
                    assert(geometry_fits(*pair, units@[owner as int]));
                    lemma_union_fits(
                        left.before,
                        right.before,
                        pair.before.source.line_seq().len() as int,
                    );
                    lemma_union_fits(
                        left.after,
                        right.after,
                        pair.after.source.line_seq().len() as int,
                    );
                }
                fallbacks.push(
                    LineFallback {
                        before: range_union(left.before, right.before),
                        after: range_union(left.after, right.after),
                    },
                );
                proof {
                    let added = fallbacks@[shorter.len() as int];
                    assert(added == joint(left, right));
                    assert(side_of(left, before_side).has(row as int) && side_of(
                        right,
                        before_side,
                    ).has(row as int));
                    assert(is_conflict(units@, added)) by {
                        assert(units@[previous as int] == left && units@[owner as int] == right);
                    }
                    assert(covers_joint(fallbacks@, left, right)) by {
                        assert(fallbacks@[shorter.len() as int] == joint(left, right));
                    }
                    assert forall|k: int| first.len() <= k < fallbacks@.len() implies is_conflict(
                        units@,
                        #[trigger] fallbacks@[k],
                    ) by {
                        if k < shorter.len() {
                            assert(fallbacks@[k] == shorter[k]);
                        }
                    }
                }
            }
            last = Some(previous);
        }
        proof {
            assert(starts_with(fallbacks@, shorter));
            lemma_covers_more(fallbacks@, shorter);
            assert forall|i: int| rows.start <= i < row + 1 implies ((
            #[trigger] earlier[i]) matches Some(previous) ==> (units@[previous as int].changed
                || units@[owner as int].changed ==> covers_side(
                fallbacks@,
                i,
                before_side,
            ))) by {
                if i == row && earlier[i] is Some {
                    let previous = earlier[i]->0;
                    if units@[previous as int].changed || units@[owner as int].changed {
                        lemma_joint_covers(
                            fallbacks@,
                            units@[previous as int],
                            units@[owner as int],
                            i,
                            before_side,
                        );
                    }
                }
            }
        }
        owners.set(row, Some(owner));
        row += 1;
    }
    proof {
        assert(takes_over(owners@, earlier, owner, rows, rows.end as int));
        assert(conflicts_covered(
            fallbacks@,
            earlier,
            units@,
            owner,
            rows,
            rows.end as int,
            before_side,
        ));
        lemma_owners_step(fallbacks@, first, owners@, earlier, units@, owner, before_side);
    }
}

/// Some fallback is the two units together.
spec fn covers_joint(
    fallbacks: Seq<LineFallback>,
    left: UnitLineGeometry,
    right: UnitLineGeometry,
) -> bool {
    exists|k: int| 0 <= k < fallbacks.len() && (#[trigger] fallbacks[k]) == joint(left, right)
}

/// Two units together hold the rows of the second.
proof fn lemma_joint_covers(
    fallbacks: Seq<LineFallback>,
    left: UnitLineGeometry,
    right: UnitLineGeometry,
    row: int,
    before_side: bool,
)
    requires
        covers_joint(fallbacks, left, right),
        side_of(right, before_side).has(row),
    ensures
        covers_side(fallbacks, row, before_side),
{
    let k = choose|k: int|
        0 <= k < fallbacks.len() && (#[trigger] fallbacks[k]) == joint(left, right);
    assert(side_of(right, before_side).has(row));
    if before_side {
        assert(fallbacks[k].before.has(row));
    } else {
        assert(fallbacks[k].after.has(row));
    }
}

/// A region that grows while it is merged.
#[derive(Clone, Copy)]
struct Region {
    fallback: LineFallback,
    /// Position of its first part; empty sides keep the place of that part.
    order: usize,
    /// Whether a requested fallback is part of it.
    requested: bool,
}

/// A region of the list holds all rows of a part, and is requested where the part is.
spec fn absorbed(regions: Seq<Region>, part: Region) -> bool {
    exists|k: int|
        0 <= k < regions.len() && fallback_covers(
            (#[trigger] regions[k]).fallback,
            part.fallback,
        ) && (part.requested ==> regions[k].requested)
}

/// Ranges of the regions.
spec fn ranges_of(regions: Seq<Region>) -> Seq<LineFallback> {
    Seq::new(regions.len(), |k: int| regions[k].fallback)
}

/// Any cover of the parts holds the fallback.
spec fn in_covers(parts: Seq<LineFallback>, fallback: LineFallback) -> bool {
    forall|cover: Seq<LineFallback>| #[trigger]
        is_cover(cover, parts) ==> is_nothing(fallback) || covered_by(cover, fallback)
}

/// A requested region holds a requested part.
spec fn holds_request(parts: Seq<Region>, region: Region) -> bool {
    region.requested ==> exists|p: int|
        0 <= p < parts.len() && (#[trigger] parts[p]).requested && fallback_covers(
            region.fallback,
            parts[p].fallback,
        )
}

/// The region is no larger than the parts make it.
spec fn is_merged(parts: Seq<Region>, region: Region) -> bool {
    &&& in_covers(ranges_of(parts), region.fallback)
    &&& holds_request(parts, region)
    &&& (forall|p: int| 0 <= p < parts.len() ==> !is_nothing((#[trigger] parts[p]).fallback))
        ==> !is_nothing(region.fallback)
}

proof fn lemma_part_merged(parts: Seq<Region>, index: int)
    requires
        0 <= index < parts.len(),
    ensures
        is_merged(parts, parts[index]),
{
    assert forall|cover: Seq<LineFallback>| #[trigger]
        is_cover(cover, ranges_of(parts)) implies is_nothing(parts[index].fallback) || covered_by(
        cover,
        parts[index].fallback,
    ) by {
        assert(ranges_of(parts)[index] == parts[index].fallback);
    }
    assert(fallback_covers(parts[index].fallback, parts[index].fallback));
}

/// Regions that meet lie in the same fallback of any cover.
proof fn lemma_join_merged(parts: Seq<Region>, left: Region, right: Region, joined: Region)
    requires
        is_merged(parts, left),
        is_merged(parts, right),
        fallbacks_meet(left.fallback, right.fallback),
        joined.requested == (left.requested || right.requested),
        fallback_covers(joined.fallback, left.fallback),
        fallback_covers(joined.fallback, right.fallback),
        joined.fallback.before == union_of(left.fallback.before, right.fallback.before)
            && joined.fallback.after == union_of(left.fallback.after, right.fallback.after)
            || joined.fallback.before == union_of(right.fallback.before, left.fallback.before)
            && joined.fallback.after == union_of(right.fallback.after, left.fallback.after),
    ensures
        is_merged(parts, joined),
{
    assert forall|cover: Seq<LineFallback>| #[trigger]
        is_cover(cover, ranges_of(parts)) implies is_nothing(joined.fallback) || covered_by(
        cover,
        joined.fallback,
    ) by {
        let k = choose|k: int|
            0 <= k < cover.len() && fallback_covers(#[trigger] cover[k], left.fallback);
        let l = choose|l: int|
            0 <= l < cover.len() && fallback_covers(#[trigger] cover[l], right.fallback);
        assert(fallbacks_meet(cover[k], cover[l]));
        assert(k == l);
        assert(fallback_covers(cover[k], joined.fallback));
    }
    if left.requested {
        let p = choose|p: int|
            0 <= p < parts.len() && (#[trigger] parts[p]).requested && fallback_covers(
                left.fallback,
                parts[p].fallback,
            );
        lemma_covers_chain(joined.fallback, left.fallback, parts[p].fallback);
    } else if right.requested {
        let p = choose|p: int|
            0 <= p < parts.len() && (#[trigger] parts[p]).requested && fallback_covers(
                right.fallback,
                parts[p].fallback,
            );
        lemma_covers_chain(joined.fallback, right.fallback, parts[p].fallback);
    }
}

/// No two regions share a row in either revision.
spec fn regions_apart(regions: Seq<Region>) -> bool {
    forall|i: int, j: int|
        0 <= i < regions.len() && 0 <= j < regions.len() && i != j ==> !fallbacks_meet(
            (#[trigger] regions[i]).fallback,
            (#[trigger] regions[j]).fallback,
        )
}

spec fn regions_fit(pair: SyntaxPair, regions: Seq<Region>) -> bool {
    forall|k: int|
        0 <= k < regions.len() ==> fallback_fits(pair, (#[trigger] regions[k]).fallback)
}

/// Join two regions.
fn join_regions(left: Region, right: Region) -> (joined: Region)
    ensures
        joined.requested == (left.requested || right.requested),
        joined.fallback == (if left.order <= right.order {
            (LineFallback {
                before: union_of(left.fallback.before, right.fallback.before),
                after: union_of(left.fallback.after, right.fallback.after),
            })
        } else {
            (LineFallback {
                before: union_of(right.fallback.before, left.fallback.before),
                after: union_of(right.fallback.after, left.fallback.after),
            })
        }),
{
    let first = if left.order <= right.order {
        left
    } else {
        right
    };
    let second = if left.order <= right.order {
        right
    } else {
        left
    };
    Region {
        fallback: LineFallback {
            before: range_union(first.fallback.before, second.fallback.before),
            after: range_union(first.fallback.after, second.fallback.after),
        },
        order: first.order,
        requested: first.requested || second.requested,
    }
}

/// First region that shares a row with the given one.
fn meeting_region(regions: &Vec<Region>, fallback: LineFallback) -> (found: Option<usize>)
    ensures
        found matches Some(k) ==> k < regions@.len() && fallbacks_meet(
            regions@[k as int].fallback,
            fallback,
        ),
        found is None ==> forall|k: int|
            0 <= k < regions@.len() ==> !fallbacks_meet((#[trigger] regions@[k]).fallback, fallback),
{
    let mut index: usize = 0;
    while index < regions.len()
        invariant
            index <= regions@.len(),
            forall|k: int|
                0 <= k < index ==> !fallbacks_meet((#[trigger] regions@[k]).fallback, fallback),
        decreases regions@.len() - index,
    {
        let other = regions[index].fallback;
        if spans_overlap(other.before, fallback.before) || spans_overlap(
            other.after,
            fallback.after,
        ) {
            return Some(index);
        }
        index += 1;
    }
    None
}

/// Merge regions that overlap in either revision until their combined ranges stop growing.
/// A union on one side can expose another overlap on the other.
fn merge_regions(pair: &SyntaxPair, parts: &Vec<Region>) -> (regions: Vec<Region>)
    requires
        regions_fit(*pair, parts@),
    ensures
        regions_fit(*pair, regions@),
        regions_apart(regions@),
        forall|k: int| 0 <= k < parts@.len() ==> absorbed(regions@, #[trigger] parts@[k]),
        forall|k: int| 0 <= k < regions@.len() ==> is_merged(parts@, #[trigger] regions@[k]),
        regions_apart(parts@) ==> regions@ == parts@,
{
    let mut regions: Vec<Region> = Vec::new();
    let mut index: usize = 0;
    while index < parts.len()
        invariant
            regions_fit(*pair, parts@),
            regions_fit(*pair, regions@),
            regions_apart(regions@),
            index <= parts@.len(),
            forall|k: int| 0 <= k < index ==> absorbed(regions@, #[trigger] parts@[k]),
            forall|k: int| 0 <= k < regions@.len() ==> is_merged(parts@, #[trigger] regions@[k]),
            regions_apart(parts@) ==> regions@ == parts@.take(index as int),
        decreases parts@.len() - index,
    {
        let ghost part = parts@[index as int];
        let mut region = parts[index];
        let mut found = meeting_region(&regions, region.fallback);
        proof {
            if regions_apart(parts@) && found is Some {
                let at = found->0 as int;
                assert(regions@[at] == parts@[at]);
                assert(!fallbacks_meet(parts@[at].fallback, parts@[index as int].fallback));
            }
            lemma_part_merged(parts@, index as int);
            assert forall|k: int| 0 <= k < index implies absorbed(
                regions@.push(region),
                #[trigger] parts@[k],
            ) by {
                let at = choose|at: int|
                    0 <= at < regions@.len() && fallback_covers(
                        (#[trigger] regions@[at]).fallback,
                        parts@[k].fallback,
                    ) && (parts@[k].requested ==> regions@[at].requested);
                assert(regions@.push(region)[at] == regions@[at]);
            }
        }
        while found.is_some()
            invariant
                regions_fit(*pair, parts@),
                regions_fit(*pair, regions@),
                regions_apart(regions@),
                index < parts@.len(),
                fallback_fits(*pair, region.fallback),
                fallback_covers(region.fallback, part.fallback),
                part.requested ==> region.requested,
                part == parts@[index as int],
                is_merged(parts@, region),
                regions_apart(parts@) ==> found is None && region == part && regions@
                    == parts@.take(index as int),
                forall|k: int|
                    0 <= k < regions@.len() ==> is_merged(parts@, #[trigger] regions@[k]),
                forall|k: int|
                    0 <= k < index ==> absorbed(regions@.push(region), #[trigger] parts@[k]),
                found matches Some(k) ==> k < regions@.len() && fallbacks_meet(
                    regions@[k as int].fallback,
                    region.fallback,
                ),
                found is None ==> forall|k: int|
                    0 <= k < regions@.len() ==> !fallbacks_meet(
                        (#[trigger] regions@[k]).fallback,
                        region.fallback,
                    ),
            decreases regions@.len(), if found is Some { 1int } else { 0int },
        {
            let position = found.unwrap();
            let ghost earlier = regions@;
            let ghost old_region = region;
            let other = regions.remove(position);
            proof {
                assert(other == earlier[position as int]);
                assert(fallback_fits(*pair, other.fallback));
                lemma_join_fits(*pair, region, other);
            }
            region = join_regions(other, region);
            proof {
                assert(is_merged(parts@, earlier[position as int]));
                lemma_join_merged(parts@, other, old_region, region);
                assert forall|k: int| 0 <= k < regions@.len() implies is_merged(
                    parts@,
                    #[trigger] regions@[k],
                ) by {
                    if k < position {
                        assert(regions@[k] == earlier[k]);
                    } else {
                        assert(regions@[k] == earlier[k + 1]);
                    }
                }
                assert forall|k: int| 0 <= k < regions@.len() implies fallback_fits(
                    *pair,
                    (#[trigger] regions@[k]).fallback,
                ) by {
                    if k < position {
                        assert(regions@[k] == earlier[k]);
                    } else {
                        assert(regions@[k] == earlier[k + 1]);
                    }
                }
                assert forall|i: int, j: int|
                    0 <= i < regions@.len() && 0 <= j < regions@.len() && i != j implies !fallbacks_meet(
                    (#[trigger] regions@[i]).fallback,
                    (#[trigger] regions@[j]).fallback,
                ) by {
                    let left = if i < position {
                        i
                    } else {
                        i + 1
                    };
                    let right = if j < position {
                        j
                    } else {
                        j + 1
                    };
                    assert(regions@[i] == earlier[left]);
                    assert(regions@[j] == earlier[right]);
                }
                assert forall|k: int| 0 <= k < index implies absorbed(
                    regions@.push(region),
                    #[trigger] parts@[k],
                ) by {
                    assert(absorbed(earlier.push(old_region), parts@[k]));
                    let at = choose|at: int|
                        0 <= at < earlier.push(old_region).len() && fallback_covers(
                            (#[trigger] earlier.push(old_region)[at]).fallback,
                            parts@[k].fallback,
                        ) && (parts@[k].requested ==> earlier.push(old_region)[at].requested);
                    let more = regions@.push(region);
                    if at < position {
                        assert(more[at] == earlier[at]);
                    } else if at == position || at == earlier.len() {
                        assert(more[more.len() - 1] == region);
                        lemma_covers_chain(
                            region.fallback,
                            earlier.push(old_region)[at].fallback,
                            parts@[k].fallback,
                        );
                    } else {
                        assert(more[at - 1] == earlier[at]);
                    }
                }
                lemma_covers_chain(region.fallback, old_region.fallback, part.fallback);
            }
            found = meeting_region(&regions, region.fallback);
        }
        let ghost earlier = regions@;
        regions.push(region);
        proof {
            assert(parts@.take(index + 1) =~= parts@.take(index as int).push(
                parts@[index as int],
            ));
            assert forall|i: int, j: int|
                0 <= i < regions@.len() && 0 <= j < regions@.len() && i != j implies !fallbacks_meet(
                (#[trigger] regions@[i]).fallback,
                (#[trigger] regions@[j]).fallback,
            ) by {
                if i < earlier.len() && j < earlier.len() {
                    assert(regions@[i] == earlier[i]);
                    assert(regions@[j] == earlier[j]);
                } else if i < earlier.len() {
                    assert(!fallbacks_meet(earlier[i].fallback, region.fallback));
                } else {
                    assert(!fallbacks_meet(earlier[j].fallback, region.fallback));
                }
            }
            assert(absorbed(regions@, part)) by {
                assert(regions@[earlier.len() as int] == region);
            }
            assert forall|k: int| 0 <= k < index + 1 implies absorbed(
                regions@,
                #[trigger] parts@[k],
            ) by {
                if k < index {
                    assert(regions@ =~= earlier.push(region));
                }
            }
        }
        index += 1;
    }
    assert(parts@.take(index as int) =~= parts@);
    regions
}

/// Joined regions fit, and hold the rows of both.
proof fn lemma_join_fits(pair: SyntaxPair, left: Region, right: Region)
    requires
        fallback_fits(pair, left.fallback),
        fallback_fits(pair, right.fallback),
    ensures
        forall|joined: LineFallback|
            joined.before == union_of(left.fallback.before, right.fallback.before) && joined.after
                == union_of(left.fallback.after, right.fallback.after) || joined.before == union_of(
                right.fallback.before,
                left.fallback.before,
            ) && joined.after == union_of(right.fallback.after, left.fallback.after)
                ==> #[trigger] fallback_fits(pair, joined) && fallback_covers(joined, left.fallback)
                && fallback_covers(joined, right.fallback),
{
}

/// Holding rows is transitive.
proof fn lemma_covers_chain(outer: LineFallback, middle: LineFallback, inner: LineFallback)
    requires
        fallback_covers(outer, middle),
        fallback_covers(middle, inner),
    ensures
        fallback_covers(outer, inner),
{
}

/// Whether one fallback is listed before another: by after rows, then by before rows.
pub open spec fn listed_before(left: LineFallback, right: LineFallback) -> bool {
    ||| left.after.start < right.after.start
    ||| left.after.start == right.after.start && (left.before.start < right.before.start || (
    left.before.start == right.before.start && (left.after.end < right.after.end || (left.after.end
        == right.after.end && left.before.end < right.before.end))))
}

fn precedes(left: LineFallback, right: LineFallback) -> (result: bool)
    ensures
        result == listed_before(left, right),
{
    if left.after.start != right.after.start {
        return left.after.start < right.after.start;
    }
    if left.before.start != right.before.start {
        return left.before.start < right.before.start;
    }
    if left.after.end != right.after.end {
        return left.after.end < right.after.end;
    }
    left.before.end < right.before.end
}

/// One of the first regions, a requested one unless all are taken, is this fallback.
spec fn came_from(regions: Seq<Region>, count: int, fallback: LineFallback, all: bool) -> bool {
    exists|k: int|
        0 <= k < count && (#[trigger] regions[k]).fallback == fallback && (all
            || regions[k].requested)
}

/// Merged regions as an ordered list, with the requested ones only.
fn sort_line_fallbacks(pair: &SyntaxPair, regions: &Vec<Region>, all: bool) -> (fallbacks: Vec<
    LineFallback,
>)
    requires
        regions_fit(*pair, regions@),
        regions_apart(regions@),
    ensures
        fallbacks_fit(*pair, fallbacks@),
        fallbacks_apart(fallbacks@),
        forall|i: int, j: int|
            0 <= i < j < fallbacks@.len() ==> !listed_before(
                #[trigger] fallbacks@[j],
                #[trigger] fallbacks@[i],
            ),
        forall|k: int|
            0 <= k < regions@.len() && (all || (#[trigger] regions@[k]).requested)
                ==> fallbacks@.contains(regions@[k].fallback),
        forall|i: int|
            0 <= i < fallbacks@.len() ==> came_from(
                regions@,
                regions@.len() as int,
                #[trigger] fallbacks@[i],
                all,
            ),
        all && in_listed_order(ranges_of(regions@)) ==> fallbacks@ == ranges_of(regions@),
{
    let mut fallbacks: Vec<LineFallback> = Vec::new();
    let mut index: usize = 0;
    while index < regions.len()
        invariant
            regions_fit(*pair, regions@),
            regions_apart(regions@),
            index <= regions@.len(),
            fallbacks_fit(*pair, fallbacks@),
            fallbacks_apart(fallbacks@),
            forall|i: int, j: int|
                0 <= i < j < fallbacks@.len() ==> !listed_before(
                    #[trigger] fallbacks@[j],
                    #[trigger] fallbacks@[i],
                ),
            forall|k: int|
                0 <= k < index && (all || (#[trigger] regions@[k]).requested)
                    ==> fallbacks@.contains(regions@[k].fallback),
            forall|i: int|
                0 <= i < fallbacks@.len() ==> came_from(
                    regions@,
                    index as int,
                    #[trigger] fallbacks@[i],
                    all,
                ),
            all && in_listed_order(ranges_of(regions@)) ==> fallbacks@ == ranges_of(
                regions@,
            ).take(index as int),
        decreases regions@.len() - index,
    {
        proof {
            assert(ranges_of(regions@).take(index + 1) =~= ranges_of(regions@).take(
                index as int,
            ).push(ranges_of(regions@)[index as int]));
        }
        if all || regions[index].requested {
            let fallback = regions[index].fallback;
            assert(regions@[index as int].fallback == fallback);
            let mut position: usize = fallbacks.len();
            while position > 0 && precedes(fallback, fallbacks[position - 1])
                invariant
                    position <= fallbacks@.len(),
                    forall|k: int|
                        position <= k < fallbacks@.len() ==> listed_before(
                            fallback,
                            #[trigger] fallbacks@[k],
                        ),
                decreases position,
            {
                position -= 1;
            }
            let ghost earlier = fallbacks@;
            fallbacks.insert(position, fallback);
            proof {
                if all && in_listed_order(ranges_of(regions@)) {
                    let ranges = ranges_of(regions@);
                    if position < earlier.len() {
                        let last = earlier.len() - 1;
                        assert(earlier[last] == ranges[last]);
                        assert(listed_before(fallback, earlier[last]));
                        assert(!listed_before(ranges[index as int], ranges[last]));
                    }
                    assert(fallbacks@ =~= earlier.push(fallback));
                }
                lemma_insert_fallback(
                    *pair,
                    earlier,
                    position as int,
                    fallback,
                    regions@,
                    index as int,
                    all,
                );
                assert(fallbacks@ =~= earlier.insert(position as int, fallback));
                assert forall|k: int|
                    0 <= k < index + 1 && (all || (
                    #[trigger] regions@[k]).requested) implies fallbacks@.contains(
                    regions@[k].fallback,
                ) by {
                    if k < index {
                        let at = choose|at: int|
                            0 <= at < earlier.len() && earlier[at] == regions@[k].fallback;
                        if at < position {
                            assert(fallbacks@[at] == regions@[k].fallback);
                        } else {
                            assert(fallbacks@[at + 1] == regions@[k].fallback);
                        }
                    } else {
                        assert(fallbacks@[position as int] == fallback);
                    }
                }
            }
        }
        index += 1;
    }
    assert(ranges_of(regions@).take(index as int) =~= ranges_of(regions@));
    fallbacks
}

/// Inserting a region's fallback at its place keeps a list ordered and apart.
proof fn lemma_insert_fallback(
    pair: SyntaxPair,
    earlier: Seq<LineFallback>,
    position: int,
    fallback: LineFallback,
    regions: Seq<Region>,
    index: int,
    all: bool,
)
    requires
        all || regions[index].requested,
        regions_fit(pair, regions),
        regions_apart(regions),
        0 <= index < regions.len(),
        regions[index].fallback == fallback,
        0 <= position <= earlier.len(),
        fallbacks_fit(pair, earlier),
        fallbacks_apart(earlier),
        forall|i: int, j: int|
            0 <= i < j < earlier.len() ==> !listed_before(
                #[trigger] earlier[j],
                #[trigger] earlier[i],
            ),
        forall|i: int|
            0 <= i < earlier.len() ==> came_from(regions, index, #[trigger] earlier[i], all),
        forall|k: int|
            position <= k < earlier.len() ==> listed_before(fallback, #[trigger] earlier[k]),
        position > 0 ==> !listed_before(fallback, earlier[position - 1]),
    ensures
        fallbacks_fit(pair, earlier.insert(position, fallback)),
        fallbacks_apart(earlier.insert(position, fallback)),
        forall|i: int, j: int|
            0 <= i < j < earlier.insert(position, fallback).len() ==> !listed_before(
                #[trigger] earlier.insert(position, fallback)[j],
                #[trigger] earlier.insert(position, fallback)[i],
            ),
        forall|i: int|
            0 <= i < earlier.insert(position, fallback).len() ==> came_from(
                regions,
                index + 1,
                #[trigger] earlier.insert(position, fallback)[i],
                all,
            ),
{
    let later = earlier.insert(position, fallback);
    assert(fallback_fits(pair, regions[index].fallback));
    assert forall|i: int| 0 <= i < later.len() implies came_from(
        regions,
        index + 1,
        #[trigger] later[i],
        all,
    ) by {
        if i == position {
            assert(regions[index].fallback == later[i]);
        } else {
            let from = if i < position {
                i
            } else {
                i - 1
            };
            assert(later[i] == earlier[from]);
            let k = choose|k: int|
                0 <= k < index && (#[trigger] regions[k]).fallback == earlier[from] && (all
                    || regions[k].requested);
            assert(regions[k].fallback == later[i]);
        }
    }
    assert forall|k: int| 0 <= k < later.len() implies fallback_fits(pair, #[trigger] later[k]) by {
        if k < position {
            assert(later[k] == earlier[k]);
        } else if k > position {
            assert(later[k] == earlier[k - 1]);
        }
    }
    assert forall|i: int, j: int|
        0 <= i < later.len() && 0 <= j < later.len() && i != j implies !fallbacks_meet(
        #[trigger] later[i],
        #[trigger] later[j],
    ) by {
        let left = if i < position {
            i
        } else {
            i - 1
        };
        let right = if j < position {
            j
        } else {
            j - 1
        };
        if i != position {
            assert(later[i] == earlier[left]);
        }
        if j != position {
            assert(later[j] == earlier[right]);
        }
        if i == position {
            let k = choose|k: int|
                0 <= k < index && (#[trigger] regions[k]).fallback == earlier[right];
            assert(!fallbacks_meet(regions[index].fallback, regions[k].fallback));
        } else if j == position {
            let k = choose|k: int|
                0 <= k < index && (#[trigger] regions[k]).fallback == earlier[left];
            assert(!fallbacks_meet(regions[k].fallback, regions[index].fallback));
        }
    }
    assert forall|i: int, j: int| 0 <= i < j < later.len() implies !listed_before(
        #[trigger] later[j],
        #[trigger] later[i],
    ) by {
        let left = if i < position {
            i
        } else {
            i - 1
        };
        let right = if j < position {
            j
        } else {
            j - 1
        };
        if i != position {
            assert(later[i] == earlier[left]);
        }
        if j != position {
            assert(later[j] == earlier[right]);
        }
        if j == position && i < position - 1 {
            assert(!listed_before(earlier[position - 1], earlier[i]));
        }
        if i == position {
            assert(listed_before(fallback, earlier[right]));
        }
    }
}

/// Rows of the changed units that a fallback grows over.
pub open spec fn growing(units: Seq<UnitLineGeometry>, count: int) -> Seq<LineFallback>
    decreases count,
{
    if count <= 0 {
        Seq::empty()
    } else if units[count - 1].changed && units[count - 1].expands_fallback {
        growing(units, count - 1).push(
            LineFallback { before: units[count - 1].before, after: units[count - 1].after },
        )
    } else {
        growing(units, count - 1)
    }
}

/// The fallback holds all rows of one of the list.
pub open spec fn holds_one(outer: LineFallback, fallbacks: Seq<LineFallback>) -> bool {
    exists|k: int| 0 <= k < fallbacks.len() && fallback_covers(outer, #[trigger] fallbacks[k])
}

/// Grow fallbacks over the changed units they touch.
fn close_fallbacks_over_changed_units(
    pair: &SyntaxPair,
    fallbacks: &Vec<LineFallback>,
    units: &Vec<UnitLineGeometry>,
) -> (closed: Vec<LineFallback>)
    requires
        fallbacks_fit(*pair, fallbacks@),
        geometries_fit(*pair, units@),
    ensures
        fallbacks_fit(*pair, closed@),
        fallbacks_apart(closed@),
        forall|k: int| 0 <= k < fallbacks@.len() ==> covered_by(closed@, #[trigger] fallbacks@[k]),
        is_finest(closed@, fallbacks@ + growing(units@, units@.len() as int)),
        forall|k: int|
            0 <= k < closed@.len() ==> holds_one(#[trigger] closed@[k], fallbacks@),
{
    let mut parts: Vec<Region> = Vec::new();
    let mut index: usize = 0;
    while index < fallbacks.len()
        invariant
            fallbacks_fit(*pair, fallbacks@),
            index <= fallbacks@.len(),
            parts@.len() == index,
            regions_fit(*pair, parts@),
            forall|k: int|
                0 <= k < index ==> (#[trigger] parts@[k]).fallback == fallbacks@[k]
                    && parts@[k].requested,
        decreases fallbacks@.len() - index,
    {
        assert(fallback_fits(*pair, fallbacks@[index as int]));
        parts.push(Region { fallback: fallbacks[index], order: index, requested: true });
        index += 1;
    }
    let mut unit: usize = 0;
    assert(ranges_of(parts@) =~= fallbacks@ + growing(units@, 0));
    while unit < units.len()
        invariant
            geometries_fit(*pair, units@),
            unit <= units@.len(),
            parts@.len() >= fallbacks@.len(),
            ranges_of(parts@) == fallbacks@ + growing(units@, unit as int),
            forall|k: int|
                fallbacks@.len() <= k < parts@.len() ==> !(#[trigger] parts@[k]).requested,
            regions_fit(*pair, parts@),
            forall|k: int|
                0 <= k < fallbacks@.len() ==> (#[trigger] parts@[k]).fallback == fallbacks@[k]
                    && parts@[k].requested,
        decreases units@.len() - unit,
    {
        assert(geometry_fits(*pair, units@[unit as int]));
        let ghost earlier = parts@;
        if units[unit].changed && units[unit].expands_fallback {
            let order = parts.len();
            parts.push(
                Region {
                    fallback: LineFallback { before: units[unit].before, after: units[unit].after },
                    order,
                    requested: false,
                },
            );
        }
        unit += 1;
        proof {
            if parts@.len() > earlier.len() {
                assert(ranges_of(parts@) =~= ranges_of(earlier).push(parts@.last().fallback));
            }
            assert(ranges_of(parts@) =~= fallbacks@ + growing(units@, unit as int));
        }
    }
    let regions = merge_regions(pair, &parts);
    let closed = sort_line_fallbacks(pair, &regions, false);
    proof {
        lemma_sorted_finest(parts@, regions@, closed@, false);
        assert forall|k: int| 0 <= k < closed@.len() implies holds_one(
            #[trigger] closed@[k],
            fallbacks@,
        ) by {
            assert(came_from(regions@, regions@.len() as int, closed@[k], false));
            let at = choose|at: int|
                0 <= at < regions@.len() && (#[trigger] regions@[at]).fallback == closed@[k]
                    && regions@[at].requested;
            assert(is_merged(parts@, regions@[at]));
            let p = choose|p: int|
                0 <= p < parts@.len() && (#[trigger] parts@[p]).requested && fallback_covers(
                    regions@[at].fallback,
                    parts@[p].fallback,
                );
            assert(p < fallbacks@.len());
            assert(fallback_covers(closed@[k], fallbacks@[p]));
        }
        assert forall|k: int| 0 <= k < fallbacks@.len() implies covered_by(
            closed@,
            #[trigger] fallbacks@[k],
        ) by {
            assert(absorbed(regions@, parts@[k]));
            let at = choose|at: int|
                0 <= at < regions@.len() && fallback_covers(
                    (#[trigger] regions@[at]).fallback,
                    parts@[k].fallback,
                ) && (parts@[k].requested ==> regions@[at].requested);
            assert(closed@.contains(regions@[at].fallback));
            let found = choose|found: int|
                0 <= found < closed@.len() && closed@[found] == regions@[at].fallback;
            assert(fallback_covers(closed@[found], fallbacks@[k]));
        }
    }
    closed
}

/// Sorted regions are no larger than the parts make them.
proof fn lemma_sorted_finest(
    parts: Seq<Region>,
    regions: Seq<Region>,
    sorted: Seq<LineFallback>,
    all: bool,
)
    requires
        forall|k: int| 0 <= k < regions.len() ==> is_merged(parts, #[trigger] regions[k]),
        forall|i: int|
            0 <= i < sorted.len() ==> came_from(
                regions,
                regions.len() as int,
                #[trigger] sorted[i],
                all,
            ),
    ensures
        is_finest(sorted, ranges_of(parts)),
{
    assert forall|cover: Seq<LineFallback>| #[trigger]
        is_cover(cover, ranges_of(parts)) implies parts_covered(cover, sorted) by {
        assert forall|k: int|
            0 <= k < sorted.len() && !is_nothing(#[trigger] sorted[k]) implies covered_by(
            cover,
            sorted[k],
        ) by {
            assert(came_from(regions, regions.len() as int, sorted[k], all));
            let at = choose|at: int|
                0 <= at < regions.len() && (#[trigger] regions[at]).fallback == sorted[k] && (all
                    || regions[at].requested);
            assert(is_merged(parts, regions[at]));
        }
    }
}

/// No fallback is listed before one that stands before it.
pub open spec fn in_listed_order(fallbacks: Seq<LineFallback>) -> bool {
    forall|i: int, j: int|
        0 <= i < j < fallbacks.len() ==> !listed_before(
            #[trigger] fallbacks[j],
            #[trigger] fallbacks[i],
        )
}

/// Fallbacks that hold rows, share none, and stand in order.
pub open spec fn are_normal(fallbacks: Seq<LineFallback>) -> bool {
    &&& forall|k: int| 0 <= k < fallbacks.len() ==> !is_nothing(#[trigger] fallbacks[k])
    &&& fallbacks_apart(fallbacks)
    &&& in_listed_order(fallbacks)
}

/// Drop empty fallbacks and merge those that share rows. Normal fallbacks stay as they are, so
/// that normalizing twice is normalizing once.
pub fn normalize_line_fallbacks(pair: &SyntaxPair, fallbacks: &Vec<LineFallback>) -> (normalized: Vec<
    LineFallback,
>)
    requires
        fallbacks_fit(*pair, fallbacks@),
    ensures
        fallbacks_fit(*pair, normalized@),
        forall|k: int|
            0 <= k < fallbacks@.len() && (!(#[trigger] fallbacks@[k]).before.empty()
                || !fallbacks@[k].after.empty()) ==> covered_by(normalized@, fallbacks@[k]),
        is_finest(normalized@, fallbacks@),
        are_normal(normalized@),
        are_normal(fallbacks@) ==> normalized@ == fallbacks@,
{
    let mut parts: Vec<Region> = Vec::new();
    let mut index: usize = 0;
    while index < fallbacks.len()
        invariant
            fallbacks_fit(*pair, fallbacks@),
            index <= fallbacks@.len(),
            regions_fit(*pair, parts@),
            forall|p: int|
                0 <= p < parts@.len() ==> !is_nothing((#[trigger] parts@[p]).fallback)
                    && fallbacks@.contains(parts@[p].fallback),
            forall|k: int|
                0 <= k < index && (!(#[trigger] fallbacks@[k]).before.empty()
                    || !fallbacks@[k].after.empty()) ==> exists|p: int|
                    0 <= p < parts@.len() && (#[trigger] parts@[p]).fallback == fallbacks@[k],
            are_normal(fallbacks@) ==> ranges_of(parts@) =~= fallbacks@.take(index as int),
        decreases fallbacks@.len() - index,
    {
        assert(fallback_fits(*pair, fallbacks@[index as int]));
        let fallback = fallbacks[index];
        let ghost earlier = parts@;
        if !fallback.before.is_empty() || !fallback.after.is_empty() {
            parts.push(Region { fallback, order: index, requested: true });
        }
        proof {
            if are_normal(fallbacks@) {
                assert(!is_nothing(fallbacks@[index as int]));
                assert(ranges_of(parts@) =~= ranges_of(earlier).push(fallback));
                assert(fallbacks@.take(index + 1) =~= fallbacks@.take(index as int).push(fallback));
            }
            assert forall|k: int|
                0 <= k < index + 1 && (!(#[trigger] fallbacks@[k]).before.empty()
                    || !fallbacks@[k].after.empty()) implies exists|p: int|
                0 <= p < parts@.len() && (#[trigger] parts@[p]).fallback == fallbacks@[k] by {
                if k < index {
                    let p = choose|p: int|
                        0 <= p < earlier.len() && (#[trigger] earlier[p]).fallback == fallbacks@[k];
                    assert(parts@[p].fallback == fallbacks@[k]);
                } else {
                    assert(parts@[earlier.len() as int].fallback == fallbacks@[k]);
                }
            }
        }
        index += 1;
    }
    let regions = merge_regions(pair, &parts);
    let normalized = sort_line_fallbacks(pair, &regions, true);
    proof {
        if are_normal(fallbacks@) {
            assert(ranges_of(parts@) =~= fallbacks@);
            assert(regions_apart(parts@)) by {
                assert forall|i: int, j: int|
                    0 <= i < parts@.len() && 0 <= j < parts@.len() && i != j implies !fallbacks_meet(
                    (#[trigger] parts@[i]).fallback,
                    (#[trigger] parts@[j]).fallback,
                ) by {
                    assert(ranges_of(parts@)[i] == fallbacks@[i]);
                    assert(ranges_of(parts@)[j] == fallbacks@[j]);
                    assert(!fallbacks_meet(fallbacks@[i], fallbacks@[j]));
                }
            }
        }
        lemma_sorted_finest(parts@, regions@, normalized@, true);
        assert forall|cover: Seq<LineFallback>| #[trigger]
            is_cover(cover, fallbacks@) implies parts_covered(cover, normalized@) by {
            assert(is_cover(cover, ranges_of(parts@))) by {
                assert forall|p: int|
                    0 <= p < ranges_of(parts@).len() && !is_nothing(
                        #[trigger] ranges_of(parts@)[p],
                    ) implies covered_by(cover, ranges_of(parts@)[p]) by {
                    assert(fallbacks@.contains(parts@[p].fallback));
                    let k = choose|k: int|
                        0 <= k < fallbacks@.len() && fallbacks@[k] == parts@[p].fallback;
                    assert(covered_by(cover, fallbacks@[k]));
                }
            }
        }
        assert forall|k: int| 0 <= k < normalized@.len() implies !is_nothing(
            #[trigger] normalized@[k],
        ) by {
            assert(came_from(regions@, regions@.len() as int, normalized@[k], true));
            let at = choose|at: int|
                0 <= at < regions@.len() && (#[trigger] regions@[at]).fallback == normalized@[k]
                    && (true || regions@[at].requested);
            assert(is_merged(parts@, regions@[at]));
        }
        assert forall|k: int|
            0 <= k < fallbacks@.len() && (!(#[trigger] fallbacks@[k]).before.empty()
                || !fallbacks@[k].after.empty()) implies covered_by(normalized@, fallbacks@[k]) by {
            let p = choose|p: int|
                0 <= p < parts@.len() && (#[trigger] parts@[p]).fallback == fallbacks@[k];
            assert(absorbed(regions@, parts@[p]));
            let at = choose|at: int|
                0 <= at < regions@.len() && fallback_covers(
                    (#[trigger] regions@[at]).fallback,
                    parts@[p].fallback,
                ) && (parts@[p].requested ==> regions@[at].requested);
            assert(normalized@.contains(regions@[at].fallback));
            let found = choose|found: int|
                0 <= found < normalized@.len() && normalized@[found] == regions@[at].fallback;
            assert(fallback_covers(normalized@[found], fallbacks@[k]));
        }
    }
    normalized
}

/// Rows of all unit edits.
pub fn unit_geometries(pair: &SyntaxPair, tree: &TreeDiff, pairs: &RowPairs) -> (units: Vec<
    UnitLineGeometry,
>)
    requires
        tree.fits(pair.before.nodes@.len() as int, pair.after.nodes@.len() as int),
        pairs.ok(*pair),
    ensures
        units@.len() == tree.units@.len(),
        geometries_fit(*pair, units@),
        units@ == geometries_of(*pair, *pairs, *tree),
{
    let mut units: Vec<UnitLineGeometry> = Vec::new();
    let mut index: usize = 0;
    while index < tree.units.len()
        invariant
            tree.fits(pair.before.nodes@.len() as int, pair.after.nodes@.len() as int),
            pairs.ok(*pair),
            index <= tree.units@.len(),
            units@.len() == index,
            geometries_fit(*pair, units@),
            forall|k: int|
                0 <= k < index ==> (#[trigger] units@[k]) == geometry_of(
                    *pair,
                    *pairs,
                    tree.units@[k],
                ),
        decreases tree.units@.len() - index,
    {
        assert(edit_fits(
            tree.units@[index as int],
            pair.before.nodes@.len() as int,
            pair.after.nodes@.len() as int,
            tree.leaves.links@.len() as int,
            tree.composites@.len() as int,
        ));
        units.push(unit_line_geometry(pair, pairs, &tree.units[index]));
        index += 1;
    }
    assert(units@ =~= geometries_of(*pair, *pairs, *tree));
    units
}

/// Rows that the syntax would leave out or show twice are in the list: missing terminators and
/// terminator edits that no move shows, unpaired rows that no unit shows and that are not blank,
/// and rows of two units of which one changes.
pub open spec fn reviews_lines(
    pair: SyntaxPair,
    tree: TreeDiff,
    pairs: RowPairs,
    missing: Seq<LineFallback>,
    fallbacks: Seq<LineFallback>,
) -> bool {
    let units = geometries_of(pair, pairs, tree);
    let count = units.len() as int;
    &&& forall|k: int|
        0 <= k < missing.len() && !is_nothing(missing[k]) && !terminator_owned(
            pair,
            tree,
            #[trigger] missing[k],
        ) ==> covered_by(fallbacks, missing[k])
    &&& forall|link: LineLink| #[trigger]
        is_ending_change(pair, tree, pairs, link) ==> covered_by(fallbacks, row_fallback(link))
    &&& forall|i: int|
        0 <= i < pair.before.source.line_seq().len() && #[trigger] unpaired_before(pairs, i)
            && !shows_before(pair, units, count, i) && !is_blank_row(pair.before.source, i)
            ==> covers_before(fallbacks, i)
    &&& forall|j: int|
        0 <= j < pair.after.source.line_seq().len() && #[trigger] unpaired_after(pairs, j)
            && !shows_after(pair, units, count, j) && !is_blank_row(pair.after.source, j)
            ==> covers_after(fallbacks, j)
    &&& forall|row: int| #[trigger]
        is_contested(units, count, row, true) ==> covers_before(fallbacks, row)
    &&& forall|row: int| #[trigger]
        is_contested(units, count, row, false) ==> covers_after(fallbacks, row)
}

/// A reason to review rows as lines.
pub open spec fn is_cause(
    pair: SyntaxPair,
    tree: TreeDiff,
    pairs: RowPairs,
    missing: Seq<LineFallback>,
    fallback: LineFallback,
) -> bool {
    ||| missing.contains(fallback) && !terminator_owned(pair, tree, fallback)
    ||| ends_differ(pair, tree, pairs, fallback)
    ||| fills_gap(pairs, fallback)
    ||| is_conflict(geometries_of(pair, pairs, tree), fallback)
}

/// Every listed reason is one.
pub open spec fn are_causes(
    pair: SyntaxPair,
    tree: TreeDiff,
    pairs: RowPairs,
    missing: Seq<LineFallback>,
    causes: Seq<LineFallback>,
) -> bool {
    forall|k: int|
        0 <= k < causes.len() ==> is_cause(pair, tree, pairs, missing, #[trigger] causes[k])
}

/// The fallbacks hold rows, each that of a reason, and no more than reasons and the changed units
/// that they touch add up to.
pub open spec fn are_grown(
    pair: SyntaxPair,
    tree: TreeDiff,
    pairs: RowPairs,
    missing: Seq<LineFallback>,
    fallbacks: Seq<LineFallback>,
) -> bool {
    let units = geometries_of(pair, pairs, tree);
    exists|causes: Seq<LineFallback>| #[trigger]
        are_causes(pair, tree, pairs, missing, causes) && is_finest(
            fallbacks,
            causes + growing(units, units.len() as int),
        ) && forall|k: int|
            0 <= k < fallbacks.len() ==> holds_one(#[trigger] fallbacks[k], causes) && !is_nothing(
                fallbacks[k],
            )
}

proof fn lemma_claims_grow(
    pair: SyntaxPair,
    earlier: Claims,
    later: Claims,
    units: Seq<UnitLineGeometry>,
    unit: int,
)
    requires
        0 <= unit < units.len(),
        earlier.fits(pair),
        later.fits(pair),
        earlier.sound(pair, units, unit),
        units[unit].changed || rows_equal(pair, units[unit]) || later == earlier,
        forall|i: int|
            0 <= i < later.before@.len() && #[trigger] later.before@[i] ==> earlier.before@[i]
                || units[unit].before.has(i),
        forall|i: int|
            0 <= i < later.after@.len() && #[trigger] later.after@[i] ==> earlier.after@[i]
                || units[unit].after.has(i),
    ensures
        later.sound(pair, units, unit + 1),
{
    assert forall|i: int| 0 <= i < later.before@.len() && #[trigger] later.before@[i] implies shows_before(
        pair,
        units,
        unit + 1,
        i,
    ) || is_blank_row(pair.before.source, i) by {
        if earlier.before@[i] {
            if shows_before(pair, units, unit, i) {
                let k = choose|k: int|
                    0 <= k < unit && (#[trigger] units[k]).before.has(i) && (units[k].changed
                        || rows_equal(pair, units[k]));
                assert(units[k].before.has(i));
            }
        } else {
            assert(units[unit].before.has(i));
        }
    }
    assert forall|i: int| 0 <= i < later.after@.len() && #[trigger] later.after@[i] implies shows_after(
        pair,
        units,
        unit + 1,
        i,
    ) || is_blank_row(pair.after.source, i) by {
        if earlier.after@[i] {
            if shows_after(pair, units, unit, i) {
                let k = choose|k: int|
                    0 <= k < unit && (#[trigger] units[k]).after.has(i) && (units[k].changed
                        || rows_equal(pair, units[k]));
                assert(units[k].after.has(i));
            }
        } else {
            assert(units[unit].after.has(i));
        }
    }
}

/// What was found are reasons, and all of them.
proof fn lemma_found(
    pair: SyntaxPair,
    tree: TreeDiff,
    pairs: RowPairs,
    missing: Seq<LineFallback>,
    claims: Claims,
    ends: Seq<LineFallback>,
    gaps: Seq<LineFallback>,
    found: Seq<LineFallback>,
)
    requires
        pairs.ok(pair),
        pairs.partners.before@.len() <= usize::MAX,
        claims.fits(pair),
        claims.sound(
            pair,
            geometries_of(pair, pairs, tree),
            geometries_of(pair, pairs, tree).len() as int,
        ),
        starts_with(gaps, ends),
        starts_with(found, gaps),
        forall|k: int|
            0 <= k < ends.len() ==> missing.contains(#[trigger] ends[k]) && !terminator_owned(
                pair,
                tree,
                ends[k],
            ),
        forall|k: int|
            0 <= k < missing.len() && !terminator_owned(pair, tree, #[trigger] missing[k])
                ==> ends.contains(missing[k]),
        forall|k: int|
            ends.len() <= k < gaps.len() ==> fills_gap(pairs, #[trigger] gaps[k]) || ends_differ(
                pair,
                tree,
                pairs,
                gaps[k],
            ),
        forall|i: int|
            0 <= i < claims.before@.len() && unpaired_before(pairs, i) && !(
            #[trigger] claims.before@[i]) ==> covers_before(gaps, i),
        forall|j: int|
            0 <= j < claims.after@.len() && unpaired_after(pairs, j) && !(
            #[trigger] claims.after@[j]) ==> covers_after(gaps, j),
        forall|i: int|
            0 <= i < pairs.partners.before@.len() ==> ends_shown(
                pair,
                tree,
                pairs,
                #[trigger] pairs.partners.before@[i],
                i,
                gaps,
            ),
        forall|k: int|
            gaps.len() <= k < found.len() ==> is_conflict(
                geometries_of(pair, pairs, tree),
                #[trigger] found[k],
            ),
        forall|row: int| #[trigger]
            is_contested(
                geometries_of(pair, pairs, tree),
                geometries_of(pair, pairs, tree).len() as int,
                row,
                true,
            ) ==> covers_before(found, row),
        forall|row: int| #[trigger]
            is_contested(
                geometries_of(pair, pairs, tree),
                geometries_of(pair, pairs, tree).len() as int,
                row,
                false,
            ) ==> covers_after(found, row),
    ensures
        are_causes(pair, tree, pairs, missing, found),
        reviews_lines(pair, tree, pairs, missing, found),
{
    lemma_covers_more(found, gaps);
    lemma_listed_stays(ends, gaps);
    lemma_listed_stays(gaps, found);
    assert forall|k: int| 0 <= k < found.len() implies is_cause(
        pair,
        tree,
        pairs,
        missing,
        #[trigger] found[k],
    ) by {
        if k < ends.len() {
            assert(gaps[k] == ends[k] && found[k] == gaps[k]);
        } else if k < gaps.len() {
            assert(found[k] == gaps[k]);
        }
    }
    assert forall|fallback: LineFallback| found.contains(fallback) implies #[trigger] covered_by(
        found,
        fallback,
    ) by {
        let k = choose|k: int| 0 <= k < found.len() && found[k] == fallback;
        assert(fallback_covers(found[k], fallback));
    }
    assert forall|link: LineLink| #[trigger]
        is_ending_change(pair, tree, pairs, link) implies covered_by(
        found,
        row_fallback(link),
    ) by {
        assert(ends_shown(
            pair,
            tree,
            pairs,
            pairs.partners.before@[link.before as int],
            link.before as int,
            gaps,
        ));
        assert(found.contains(row_fallback(link)));
    }
    assert forall|i: int|
        0 <= i < pair.before.source.line_seq().len() && #[trigger] unpaired_before(pairs, i)
            && !shows_before(
            pair,
            geometries_of(pair, pairs, tree),
            geometries_of(pair, pairs, tree).len() as int,
            i,
        ) && !is_blank_row(pair.before.source, i) implies covers_before(found, i) by {
        assert(!claims.before@[i]);
        assert(covers_before(gaps, i));
    }
    assert forall|j: int|
        0 <= j < pair.after.source.line_seq().len() && #[trigger] unpaired_after(pairs, j)
            && !shows_after(
            pair,
            geometries_of(pair, pairs, tree),
            geometries_of(pair, pairs, tree).len() as int,
            j,
        ) && !is_blank_row(pair.after.source, j) implies covers_after(found, j) by {
        assert(!claims.after@[j]);
        assert(covers_after(gaps, j));
    }
}

/// Merging keeps covered what holds rows.
proof fn lemma_cover_chain(
    found: Seq<LineFallback>,
    closed: Seq<LineFallback>,
    normalized: Seq<LineFallback>,
    inner: LineFallback,
)
    requires
        covered_by(found, inner),
        !is_nothing(inner),
        forall|k: int| 0 <= k < found.len() ==> covered_by(closed, #[trigger] found[k]),
        parts_covered(normalized, closed),
    ensures
        covered_by(normalized, inner),
{
    let k = choose|k: int| 0 <= k < found.len() && fallback_covers(#[trigger] found[k], inner);
    assert(covered_by(closed, found[k]));
    let l = choose|l: int|
        0 <= l < closed.len() && fallback_covers(#[trigger] closed[l], found[k]);
    lemma_covers_chain(closed[l], found[k], inner);
    assert(!is_nothing(closed[l]));
    assert(covered_by(normalized, closed[l]));
    let m = choose|m: int|
        0 <= m < normalized.len() && fallback_covers(#[trigger] normalized[m], closed[l]);
    lemma_covers_chain(normalized[m], closed[l], inner);
}

/// A single row as a fallback.
spec fn single(row: int, before_side: bool) -> LineFallback {
    let span = Span { start: row as usize, end: (row + 1) as usize };
    let none = Span { start: 0, end: 0 };
    if before_side {
        LineFallback { before: span, after: none }
    } else {
        LineFallback { before: none, after: span }
    }
}

proof fn lemma_row_covered(fallbacks: Seq<LineFallback>, row: int)
    requires
        0 <= row < usize::MAX,
    ensures
        covers_before(fallbacks, row) <==> covered_by(fallbacks, single(row, true)),
        covers_after(fallbacks, row) <==> covered_by(fallbacks, single(row, false)),
{
    if covers_before(fallbacks, row) {
        let k = choose|k: int|
            0 <= k < fallbacks.len() && (#[trigger] fallbacks[k]).before.has(row);
        assert(fallback_covers(fallbacks[k], single(row, true)));
    }
    if covers_after(fallbacks, row) {
        let k = choose|k: int|
            0 <= k < fallbacks.len() && (#[trigger] fallbacks[k]).after.has(row);
        assert(fallback_covers(fallbacks[k], single(row, false)));
    }
    if covered_by(fallbacks, single(row, true)) {
        let k = choose|k: int|
            0 <= k < fallbacks.len() && fallback_covers(
                #[trigger] fallbacks[k],
                single(row, true),
            );
        assert(fallbacks[k].before.has(row));
    }
    if covered_by(fallbacks, single(row, false)) {
        let k = choose|k: int|
            0 <= k < fallbacks.len() && fallback_covers(
                #[trigger] fallbacks[k],
                single(row, false),
            );
        assert(fallbacks[k].after.has(row));
    }
}

/// Growing and merging keep the reviewed rows.
proof fn lemma_reviews_grow(
    pair: SyntaxPair,
    tree: TreeDiff,
    pairs: RowPairs,
    missing: Seq<LineFallback>,
    found: Seq<LineFallback>,
    closed: Seq<LineFallback>,
    normalized: Seq<LineFallback>,
)
    requires
        reviews_lines(pair, tree, pairs, missing, found),
        fallbacks_fit(pair, found),
        pairs.ok(pair),
        pair.wf(),
        forall|k: int| 0 <= k < found.len() ==> covered_by(closed, #[trigger] found[k]),
        parts_covered(normalized, closed),
    ensures
        reviews_lines(pair, tree, pairs, missing, normalized),
{
    let units = geometries_of(pair, pairs, tree);
    let count = units.len() as int;
    pair.before.source.lemma_line_count();
    pair.after.source.lemma_line_count();
    assert forall|row: int| #[trigger] covers_before(found, row) implies covers_before(
        normalized,
        row,
    ) by {
        let k = choose|k: int| 0 <= k < found.len() && (#[trigger] found[k]).before.has(row);
        assert(fallback_fits(pair, found[k]));
        lemma_row_covered(found, row);
        lemma_row_covered(normalized, row);
        lemma_cover_chain(found, closed, normalized, single(row, true));
    }
    assert forall|row: int| #[trigger] covers_after(found, row) implies covers_after(
        normalized,
        row,
    ) by {
        let k = choose|k: int| 0 <= k < found.len() && (#[trigger] found[k]).after.has(row);
        assert(fallback_fits(pair, found[k]));
        lemma_row_covered(found, row);
        lemma_row_covered(normalized, row);
        lemma_cover_chain(found, closed, normalized, single(row, false));
    }
    assert forall|k: int|
        0 <= k < missing.len() && !is_nothing(missing[k]) && !terminator_owned(
            pair,
            tree,
            #[trigger] missing[k],
        ) implies covered_by(normalized, missing[k]) by {
        lemma_cover_chain(found, closed, normalized, missing[k]);
    }
    assert forall|link: LineLink| #[trigger]
        is_ending_change(pair, tree, pairs, link) implies covered_by(
        normalized,
        row_fallback(link),
    ) by {
        assert(!is_nothing(row_fallback(link)));
        lemma_cover_chain(found, closed, normalized, row_fallback(link));
    }
}

/// Growing and merging add no more than the reasons and the changed units they touch.
proof fn lemma_grown(
    pair: SyntaxPair,
    tree: TreeDiff,
    pairs: RowPairs,
    missing: Seq<LineFallback>,
    found: Seq<LineFallback>,
    closed: Seq<LineFallback>,
    normalized: Seq<LineFallback>,
)
    requires
        are_causes(pair, tree, pairs, missing, found),
        fallbacks_apart(closed),
        fallbacks_apart(normalized),
        is_finest(
            closed,
            found + growing(
                geometries_of(pair, pairs, tree),
                geometries_of(pair, pairs, tree).len() as int,
            ),
        ),
        forall|k: int| 0 <= k < closed.len() ==> holds_one(#[trigger] closed[k], found),
        parts_covered(normalized, closed),
        is_finest(normalized, closed),
        forall|k: int| 0 <= k < normalized.len() ==> !is_nothing(#[trigger] normalized[k]),
    ensures
        are_grown(pair, tree, pairs, missing, normalized),
{
    let units = geometries_of(pair, pairs, tree);
    let parts = found + growing(units, units.len() as int);
    assert forall|cover: Seq<LineFallback>| #[trigger]
        is_cover(cover, parts) implies parts_covered(cover, normalized) by {
        assert(parts_covered(cover, closed));
        assert(is_cover(cover, closed));
    }
    merging_is_idempotent(closed);
    assert forall|k: int| 0 <= k < normalized.len() implies holds_one(
        #[trigger] normalized[k],
        found,
    ) && !is_nothing(normalized[k]) by {
        assert(parts_covered(closed, normalized));
        assert(covered_by(closed, normalized[k]));
        let l = choose|l: int|
            0 <= l < closed.len() && fallback_covers(#[trigger] closed[l], normalized[k]);
        assert(!is_nothing(closed[l]));
        assert(covered_by(normalized, closed[l]));
        let m = choose|m: int|
            0 <= m < normalized.len() && fallback_covers(#[trigger] normalized[m], closed[l]);
        lemma_covers_chain(normalized[m], closed[l], normalized[k]);
        assert(fallbacks_meet(normalized[m], normalized[k]));
        assert(m == k);
        assert(holds_one(closed[l], found));
        let j = choose|j: int|
            0 <= j < found.len() && fallback_covers(closed[l], #[trigger] found[j]);
        lemma_covers_chain(normalized[k], closed[l], found[j]);
    }
}

/// Choose linewise review where syntax would omit a change or claim a line twice.
pub fn local_line_fallbacks(
    pair: &SyntaxPair,
    tree: &TreeDiff,
    pairs: &RowPairs,
    missing_terminators: &Vec<LineFallback>,
) -> (fallbacks: Vec<LineFallback>)
    requires
        pair.wf(),
        tree.fits(pair.before.nodes@.len() as int, pair.after.nodes@.len() as int),
        pairs.ok(*pair),
        fallbacks_fit(*pair, missing_terminators@),
    ensures
        fallbacks_fit(*pair, fallbacks@),
        fallbacks_apart(fallbacks@),
        forall|i: int, j: int|
            0 <= i < j < fallbacks@.len() ==> !listed_before(
                #[trigger] fallbacks@[j],
                #[trigger] fallbacks@[i],
            ),
        reviews_lines(*pair, *tree, *pairs, missing_terminators@, fallbacks@),
        are_grown(*pair, *tree, *pairs, missing_terminators@, fallbacks@),
{
    let mut fallbacks: Vec<LineFallback> = Vec::new();
    let mut index: usize = 0;
    while index < missing_terminators.len()
        invariant
            tree.fits(pair.before.nodes@.len() as int, pair.after.nodes@.len() as int),
            fallbacks_fit(*pair, missing_terminators@),
            fallbacks_fit(*pair, fallbacks@),
            index <= missing_terminators@.len(),
            forall|k: int|
                0 <= k < fallbacks@.len() ==> missing_terminators@.contains(
                    #[trigger] fallbacks@[k],
                ) && !terminator_owned(*pair, *tree, fallbacks@[k]),
            forall|k: int|
                0 <= k < index && !terminator_owned(
                    *pair,
                    *tree,
                    #[trigger] missing_terminators@[k],
                ) ==> fallbacks@.contains(missing_terminators@[k]),
        decreases missing_terminators@.len() - index,
    {
        let fallback = missing_terminators[index];
        assert(fallback_fits(*pair, missing_terminators@[index as int]));
        let ghost shorter = fallbacks@;
        if !move_owns_missing_terminator(pair, tree, &fallback) {
            fallbacks.push(fallback);
            assert(fallbacks@[shorter.len() as int] == fallback);
        }
        index += 1;
        proof {
            lemma_listed_stays(shorter, fallbacks@);
        }
    }
    let ghost ends = fallbacks@;
    let units = unit_geometries(pair, tree, pairs);
    let mut claims = Claims {
        before: repeated(false, pair.before.source.line_count()),
        after: repeated(false, pair.after.source.line_count()),
    };
    // An unchanged unit claims rows that line alignment skipped only when every byte agrees.
    let mut unit: usize = 0;
    while unit < units.len()
        invariant
            pair.wf(),
            geometries_fit(*pair, units@),
            claims.fits(*pair),
            claims.sound(*pair, units@, unit as int),
            unit <= units@.len(),
        decreases units@.len() - unit,
    {
        assert(geometry_fits(*pair, units@[unit as int]));
        let ghost earlier = claims;
        if units[unit].changed || unit_lines_are_source_equal(pair, &units[unit]) {
            claims.claim_unit(&units[unit]);
        }
        proof {
            lemma_claims_grow(*pair, earlier, claims, units@, unit as int);
        }
        unit += 1;
    }
    claims.claim_paired_adjacent_layout(pair, tree);
    collect_gap_fallbacks(pair, tree, pairs, &claims, &mut fallbacks);
    let ghost gaps = fallbacks@;
    conflicting_unit_fallbacks(pair, &units, &mut fallbacks);
    let closed = close_fallbacks_over_changed_units(pair, &fallbacks, &units);
    let normalized = normalize_line_fallbacks(pair, &closed);
    proof {
        lemma_found(
            *pair,
            *tree,
            *pairs,
            missing_terminators@,
            claims,
            ends,
            gaps,
            fallbacks@,
        );
        lemma_grown(
            *pair,
            *tree,
            *pairs,
            missing_terminators@,
            fallbacks@,
            closed@,
            normalized@,
        );
        lemma_reviews_grow(
            *pair,
            *tree,
            *pairs,
            missing_terminators@,
            fallbacks@,
            closed@,
            normalized@,
        );
    }
    normalized
}

/// The fallback holds rows, and none that is paired.
pub open spec fn fills_gap(pairs: RowPairs, fallback: LineFallback) -> bool {
    &&& !is_nothing(fallback)
    &&& forall|i: int| fallback.before.has(i) ==> #[trigger] unpaired_before(pairs, i)
    &&& forall|j: int| fallback.after.has(j) ==> #[trigger] unpaired_after(pairs, j)
}

/// Some unit moved without changing and holds both rows.
pub open spec fn rows_owned(pair: SyntaxPair, tree: TreeDiff, link: LineLink) -> bool {
    exists|k: int|
        0 <= k < tree.units@.len() && edit_owns_rows(pair, #[trigger] tree.units@[k], link)
}

/// Some unit moved without changing and reports the missing terminator itself.
pub open spec fn terminator_owned(
    pair: SyntaxPair,
    tree: TreeDiff,
    fallback: LineFallback,
) -> bool {
    fallback.before.empty() != fallback.after.empty() && exists|k: int|
        0 <= k < tree.units@.len() && edit_owns_terminator(
            pair,
            #[trigger] tree.units@[k],
            fallback,
        )
}

/// Two paired rows.
pub open spec fn row_fallback(link: LineLink) -> LineFallback {
    LineFallback {
        before: Span { start: link.before, end: (link.before + 1) as usize },
        after: Span { start: link.after, end: (link.after + 1) as usize },
    }
}

/// Paired rows with different terminators that no move shows.
pub open spec fn is_ending_change(
    pair: SyntaxPair,
    tree: TreeDiff,
    pairs: RowPairs,
    link: LineLink,
) -> bool {
    &&& link.before < pairs.partners.before@.len()
    &&& pairs.partners.before@[link.before as int] == Some(link.after)
    &&& is_ending_edit(pair, link)
    &&& !rows_owned(pair, tree, link)
}

/// The fallback is a pair of rows with different terminators that no move shows.
pub open spec fn ends_differ(
    pair: SyntaxPair,
    tree: TreeDiff,
    pairs: RowPairs,
    fallback: LineFallback,
) -> bool {
    exists|link: LineLink| #[trigger]
        is_ending_change(pair, tree, pairs, link) && fallback == row_fallback(link)
}

/// The row's pair is in the list where the terminators differ and no move shows them.
pub open spec fn ends_shown(
    pair: SyntaxPair,
    tree: TreeDiff,
    pairs: RowPairs,
    partner: Option<usize>,
    row: int,
    fallbacks: Seq<LineFallback>,
) -> bool {
    partner matches Some(after) ==> (is_ending_change(
        pair,
        tree,
        pairs,
        LineLink { before: row as usize, after },
    ) ==> fallbacks.contains(row_fallback(LineLink { before: row as usize, after })))
}

proof fn lemma_listed_stays(earlier: Seq<LineFallback>, later: Seq<LineFallback>)
    requires
        starts_with(later, earlier),
    ensures
        forall|fallback: LineFallback| #[trigger]
            earlier.contains(fallback) ==> later.contains(fallback),
{
    assert forall|fallback: LineFallback| #[trigger] earlier.contains(fallback) implies later.contains(
        fallback,
    ) by {
        let k = choose|k: int| 0 <= k < earlier.len() && earlier[k] == fallback;
        assert(later[k] == fallback);
    }
}

/// The gap before a paired row and the row itself are recorded.
proof fn lemma_gap_settled(
    pair: SyntaxPair,
    tree: TreeDiff,
    pairs: RowPairs,
    first: Seq<LineFallback>,
    second: Seq<LineFallback>,
    third: Seq<LineFallback>,
    start: Seq<LineFallback>,
    row: int,
)
    requires
        0 <= row < pairs.partners.before@.len() <= usize::MAX,
        pairs.partners.before@[row] is Some,
        starts_with(first, start),
        starts_with(second, first),
        starts_with(third, second),
        forall|k: int|
            start.len() <= k < first.len() ==> fills_gap(pairs, #[trigger] first[k])
                || ends_differ(pair, tree, pairs, first[k]),
        forall|k: int| first.len() <= k < second.len() ==> fills_gap(pairs, #[trigger] second[k]),
        third == second || third == second.push(
            row_fallback(
                LineLink { before: row as usize, after: pairs.partners.before@[row]->0 },
            ),
        ),
        is_ending_change(
            pair,
            tree,
            pairs,
            LineLink { before: row as usize, after: pairs.partners.before@[row]->0 },
        ) <==> third != second,
        forall|i: int|
            0 <= i < row ==> ends_shown(
                pair,
                tree,
                pairs,
                #[trigger] pairs.partners.before@[i],
                i,
                first,
            ),
    ensures
        starts_with(third, start),
        forall|k: int|
            start.len() <= k < third.len() ==> fills_gap(pairs, #[trigger] third[k])
                || ends_differ(pair, tree, pairs, third[k]),
        forall|i: int|
            0 <= i < row + 1 ==> ends_shown(
                pair,
                tree,
                pairs,
                #[trigger] pairs.partners.before@[i],
                i,
                third,
            ),
{
    let link = LineLink { before: row as usize, after: pairs.partners.before@[row]->0 };
    assert forall|k: int| 0 <= k < start.len() implies (#[trigger] third[k]) == start[k] by {
        assert(first[k] == start[k] && second[k] == first[k]);
    }
    assert forall|k: int| start.len() <= k < third.len() implies fills_gap(
        pairs,
        #[trigger] third[k],
    ) || ends_differ(pair, tree, pairs, third[k]) by {
        if k < first.len() {
            assert(third[k] == second[k] && second[k] == first[k]);
        } else if k < second.len() {
            assert(third[k] == second[k]);
        } else {
            assert(is_ending_change(pair, tree, pairs, link));
        }
    }
    lemma_listed_stays(first, second);
    lemma_listed_stays(second, third);
    assert forall|i: int| 0 <= i < row + 1 implies ends_shown(
        pair,
        tree,
        pairs,
        #[trigger] pairs.partners.before@[i],
        i,
        third,
    ) by {
        if i == row {
            if third != second {
                assert(third[second.len() as int] == row_fallback(link));
            }
        } else {
            assert(ends_shown(pair, tree, pairs, pairs.partners.before@[i], i, first));
        }
    }
}

/// Fallbacks of all gaps between paired rows, and of terminator edits no move presents.
fn collect_gap_fallbacks(
    pair: &SyntaxPair,
    tree: &TreeDiff,
    pairs: &RowPairs,
    claims: &Claims,
    fallbacks: &mut Vec<LineFallback>,
)
    requires
        pair.wf(),
        tree.fits(pair.before.nodes@.len() as int, pair.after.nodes@.len() as int),
        pairs.ok(*pair),
        claims.fits(*pair),
        fallbacks_fit(*pair, old(fallbacks)@),
    ensures
        fallbacks_fit(*pair, final(fallbacks)@),
        starts_with(final(fallbacks)@, old(fallbacks)@),
        forall|k: int|
            old(fallbacks)@.len() <= k < final(fallbacks)@.len() ==> fills_gap(
                *pairs,
                #[trigger] final(fallbacks)@[k],
            ) || ends_differ(*pair, *tree, *pairs, final(fallbacks)@[k]),
        forall|i: int|
            0 <= i < claims.before@.len() && unpaired_before(*pairs, i) && !(
            #[trigger] claims.before@[i]) ==> covers_before(final(fallbacks)@, i),
        forall|j: int|
            0 <= j < claims.after@.len() && unpaired_after(*pairs, j) && !(
            #[trigger] claims.after@[j]) ==> covers_after(final(fallbacks)@, j),
        forall|i: int|
            0 <= i < pairs.partners.before@.len() ==> ends_shown(
                *pair,
                *tree,
                *pairs,
                #[trigger] pairs.partners.before@[i],
                i,
                final(fallbacks)@,
            ),
{
    let before_count = pair.before.source.line_count();
    let after_count = pair.after.source.line_count();
    let mut before_start: usize = 0;
    let mut after_start: usize = 0;
    let mut row: usize = 0;
    let ghost start = fallbacks@;
    while row < before_count
        invariant
            starts_with(fallbacks@, start),
            forall|k: int|
                start.len() <= k < fallbacks@.len() ==> fills_gap(
                    *pairs,
                    #[trigger] fallbacks@[k],
                ) || ends_differ(*pair, *tree, *pairs, fallbacks@[k]),
            forall|i: int|
                before_start <= i < row ==> (#[trigger] pairs.partners.before@[i]) is None,
            forall|i: int|
                0 <= i < before_start ==> ((#[trigger] pairs.partners.before@[i]) matches Some(j)
                    ==> j < after_start),
            forall|i: int|
                0 <= i < before_start && unpaired_before(*pairs, i) && !(
                #[trigger] claims.before@[i]) ==> covers_before(fallbacks@, i),
            forall|j: int|
                0 <= j < after_start && unpaired_after(*pairs, j) && !(
                #[trigger] claims.after@[j]) ==> covers_after(fallbacks@, j),
            forall|i: int|
                0 <= i < row ==> ends_shown(
                    *pair,
                    *tree,
                    *pairs,
                    #[trigger] pairs.partners.before@[i],
                    i,
                    fallbacks@,
                ),
            pair.wf(),
            tree.fits(pair.before.nodes@.len() as int, pair.after.nodes@.len() as int),
            pairs.ok(*pair),
            claims.fits(*pair),
            fallbacks_fit(*pair, fallbacks@),
            before_count == pair.before.source.line_seq().len(),
            after_count == pair.after.source.line_seq().len(),
            before_start <= row <= before_count,
            after_start <= after_count,
            forall|i: int|
                row <= i < before_count ==> ((#[trigger] pairs.partners.before@[i]) matches Some(j)
                    ==> j >= after_start),
        decreases before_count - row,
    {
        if let Some(after) = pairs.partners.before[row] {
            assert(pairs.partners.before@[row as int] == Some(after));
            let ghost first = fallbacks@;
            let before_gap = Span { start: before_start, end: row };
            let after_gap = Span { start: after_start, end: after };
            unclaimed_gap_fallbacks(pair, claims, before_gap, after_gap, fallbacks);
            let ghost second = fallbacks@;
            proof {
                assert forall|j: int| after_gap.has(j) implies #[trigger] unpaired_after(
                    *pairs,
                    j,
                ) by {
                    assert forall|i: int| 0 <= i < pairs.partners.before@.len() implies (
                    #[trigger] pairs.partners.before@[i]) != Some(j as usize) by {
                        if i > row && pairs.partners.before@[i] is Some {
                            assert(pairs.partners.before@[row as int] is Some);
                        }
                    }
                }
                assert forall|k: int| first.len() <= k < second.len() implies fills_gap(
                    *pairs,
                    #[trigger] second[k],
                ) by {
                    assert(lies_in(second[k], before_gap, after_gap));
                }
            }
            let link = LineLink { before: row, after };
            if pair.before.source.lines()[row].ending != pair.after.source.lines()[after].ending
                && !move_owns_line_ending(pair, tree, link) {
                fallbacks.push(
                    LineFallback {
                        before: Span { start: row, end: row + 1 },
                        after: Span { start: after, end: after + 1 },
                    },
                );
            }
            proof {
                lemma_covers_more(second, first);
                lemma_covers_more(fallbacks@, second);
                assert(starts_with(fallbacks@, second));
                lemma_gap_settled(
                    *pair,
                    *tree,
                    *pairs,
                    first,
                    second,
                    fallbacks@,
                    start,
                    row as int,
                );
                assert forall|i: int|
                    0 <= i < row + 1 && unpaired_before(*pairs, i) && !(
                    #[trigger] claims.before@[i]) implies covers_before(fallbacks@, i) by {
                    if i < before_start {
                        assert(covers_before(first, i));
                    } else {
                        assert(before_gap.has(i));
                        assert(covers_before(second, i));
                    }
                }
                assert forall|j: int|
                    0 <= j < after + 1 && unpaired_after(*pairs, j) && !(
                    #[trigger] claims.after@[j]) implies covers_after(fallbacks@, j) by {
                    if j < after_start {
                        assert(covers_after(first, j));
                    } else if j < after {
                        assert(after_gap.has(j));
                        assert(covers_after(second, j));
                    } else {
                        assert(pairs.partners.before@[row as int] != Some(j as usize));
                    }
                }
            }
            before_start = row + 1;
            after_start = after + 1;
            proof {
                assert forall|i: int| row + 1 <= i < before_count implies ((
                #[trigger] pairs.partners.before@[i]) matches Some(j) ==> j >= after + 1) by {
                    if pairs.partners.before@[i] is Some {
                        assert(pairs.partners.before@[row as int] is Some);
                    }
                }
            }
        }
        row += 1;
    }
    let ghost first = fallbacks@;
    let before_gap = Span { start: before_start, end: before_count };
    let after_gap = Span { start: after_start, end: after_count };
    unclaimed_gap_fallbacks(pair, claims, before_gap, after_gap, fallbacks);
    proof {
        let second = fallbacks@;
        lemma_covers_more(second, first);
        assert forall|j: int| after_gap.has(j) implies #[trigger] unpaired_after(*pairs, j) by {
            assert forall|i: int| 0 <= i < pairs.partners.before@.len() implies (
            #[trigger] pairs.partners.before@[i]) != Some(j as usize) by {}
        }
        assert forall|k: int| first.len() <= k < second.len() implies fills_gap(
            *pairs,
            #[trigger] second[k],
        ) by {
            assert(lies_in(second[k], before_gap, after_gap));
        }
        assert forall|k: int| start.len() <= k < second.len() implies fills_gap(
            *pairs,
            #[trigger] second[k],
        ) || ends_differ(*pair, *tree, *pairs, second[k]) by {
            if k < first.len() {
                assert(second[k] == first[k]);
            }
        }
        assert forall|k: int| 0 <= k < start.len() implies (#[trigger] second[k]) == start[k] by {
            assert(first[k] == start[k]);
        }
        assert forall|i: int|
            0 <= i < claims.before@.len() && unpaired_before(*pairs, i) && !(
            #[trigger] claims.before@[i]) implies covers_before(second, i) by {
            if i < before_start {
                assert(covers_before(first, i));
            } else {
                assert(before_gap.has(i));
            }
        }
        assert forall|j: int|
            0 <= j < claims.after@.len() && unpaired_after(*pairs, j) && !(
            #[trigger] claims.after@[j]) implies covers_after(second, j) by {
            if j < after_start {
                assert(covers_after(first, j));
            } else {
                assert(after_gap.has(j));
            }
        }
        assert forall|i: int| 0 <= i < pairs.partners.before@.len() implies ends_shown(
            *pair,
            *tree,
            *pairs,
            #[trigger] pairs.partners.before@[i],
            i,
            second,
        ) by {
            lemma_listed_stays(first, second);
        }
    }
}

/// Spans start in order and share no position.
pub open spec fn spans_in_order(spans: Seq<Span>) -> bool {
    &&& forall|k: int| 0 <= k < spans.len() ==> !(#[trigger] spans[k]).empty()
    &&& forall|i: int, j: int|
        0 <= i < j < spans.len() ==> (#[trigger] spans[i]).end <= (#[trigger] spans[j]).start
}

/// Some span shares a position with the query.
pub open spec fn any_meets(spans: Seq<Span>, query: Span) -> bool {
    exists|k: int| 0 <= k < spans.len() && spans_meet(#[trigger] spans[k], query)
}

/// Whether an ordered list of disjoint spans overlaps the query.
pub fn indexed_ranges_overlap(ranges: &Vec<Span>, query: &Span) -> (result: bool)
    requires
        spans_in_order(ranges@),
    ensures
        result == any_meets(ranges@, *query),
{
    if query.is_empty() {
        return false;
    }
    let mut low: usize = 0;
    let mut high: usize = ranges.len();
    while low < high
        invariant
            spans_in_order(ranges@),
            low <= high <= ranges@.len(),
            forall|k: int| 0 <= k < low ==> (#[trigger] ranges@[k]).end <= query.start,
            forall|k: int| high <= k < ranges@.len() ==> (#[trigger] ranges@[k]).end > query.start,
        decreases high - low,
    {
        let middle = low + (high - low) / 2;
        if ranges[middle].end <= query.start {
            low = middle + 1;
        } else {
            high = middle;
        }
    }
    let result = low < ranges.len() && ranges[low].start < query.end;
    proof {
        if any_meets(ranges@, *query) {
            let k = choose|k: int|
                0 <= k < ranges@.len() && spans_meet(#[trigger] ranges@[k], *query);
            assert(k >= low);
            if k > low {
                assert(ranges@[low as int].end <= ranges@[k].start);
            }
        }
        if result {
            assert(spans_meet(ranges@[low as int], *query));
        }
    }
    result
}

/// Rows of local fallbacks, in order, for lookups.
pub struct FallbackIndex {
    pub before: Vec<Span>,
    pub after: Vec<Span>,
}

/// The lists hold exactly the spans that are not empty.
pub open spec fn lists_side(spans: Seq<Span>, sides: Seq<Span>) -> bool {
    &&& forall|k: int|
        0 <= k < sides.len() && !(#[trigger] sides[k]).empty() ==> spans.contains(sides[k])
    &&& forall|k: int| 0 <= k < spans.len() ==> sides.contains(#[trigger] spans[k])
}

/// Insert a span into a list in order that it does not meet.
fn insert_span(spans: &mut Vec<Span>, span: Span)
    requires
        spans_in_order(old(spans)@),
        !span.empty(),
        forall|k: int| 0 <= k < old(spans)@.len() ==> !spans_meet(#[trigger] old(spans)@[k], span),
    ensures
        spans_in_order(final(spans)@),
        forall|other: Span| #[trigger]
            final(spans)@.contains(other) <==> old(spans)@.contains(other) || other == span,
{
    let ghost earlier = spans@;
    let mut position: usize = spans.len();
    while position > 0 && spans[position - 1].start > span.start
        invariant
            position <= spans@.len(),
            spans@ == earlier,
            forall|k: int| position <= k < spans@.len() ==> (#[trigger] spans@[k]).start
                > span.start,
        decreases position,
    {
        position -= 1;
    }
    spans.insert(position, span);
    proof {
        assert(spans@ =~= earlier.insert(position as int, span));
        assert forall|k: int| 0 <= k < spans@.len() implies !(#[trigger] spans@[k]).empty() by {
            if k < position {
                assert(spans@[k] == earlier[k]);
            } else if k > position {
                assert(spans@[k] == earlier[k - 1]);
            }
        }
        assert forall|i: int, j: int| 0 <= i < j < spans@.len() implies (
        #[trigger] spans@[i]).end <= (#[trigger] spans@[j]).start by {
            let left = if i < position { i } else { i - 1 };
            let right = if j < position { j } else { j - 1 };
            if i == position {
                assert(spans@[j] == earlier[right]);
                assert(!spans_meet(earlier[right], span));
            } else if j == position {
                assert(spans@[i] == earlier[left]);
                assert(!spans_meet(earlier[left], span));
                if left < position - 1 {
                    assert(earlier[left].end <= earlier[position - 1].start);
                }
            } else {
                assert(spans@[i] == earlier[left]);
                assert(spans@[j] == earlier[right]);
            }
        }
        assert forall|other: Span| #[trigger]
            spans@.contains(other) <==> earlier.contains(other) || other == span by {
            if spans@.contains(other) {
                let k = choose|k: int| 0 <= k < spans@.len() && spans@[k] == other;
                if k < position {
                    assert(earlier[k] == other);
                } else if k > position {
                    assert(earlier[k - 1] == other);
                }
            }
            if earlier.contains(other) {
                let k = choose|k: int| 0 <= k < earlier.len() && earlier[k] == other;
                if k < position {
                    assert(spans@[k] == other);
                } else {
                    assert(spans@[k + 1] == other);
                }
            }
            assert(spans@[position as int] == span);
        }
    }
}

/// Old rows of the fallbacks.
pub open spec fn before_sides(fallbacks: Seq<LineFallback>) -> Seq<Span> {
    fallbacks.map_values(|fallback: LineFallback| fallback.before)
}

/// Current rows of the fallbacks.
pub open spec fn after_sides(fallbacks: Seq<LineFallback>) -> Seq<Span> {
    fallbacks.map_values(|fallback: LineFallback| fallback.after)
}

/// No two spans of the list share a position.
pub open spec fn sides_apart(sides: Seq<Span>) -> bool {
    forall|i: int, j: int|
        0 <= i < sides.len() && 0 <= j < sides.len() && i != j ==> !spans_meet(
            #[trigger] sides[i],
            #[trigger] sides[j],
        )
}

/// Nonempty spans, in order.
fn ordered_side(sides: Vec<Span>) -> (spans: Vec<Span>)
    requires
        sides_apart(sides@),
    ensures
        spans_in_order(spans@),
        lists_side(spans@, sides@),
{
    let mut spans: Vec<Span> = Vec::new();
    let mut index: usize = 0;
    while index < sides.len()
        invariant
            sides_apart(sides@),
            index <= sides@.len(),
            spans_in_order(spans@),
            forall|k: int|
                0 <= k < index && !(#[trigger] sides@[k]).empty() ==> spans@.contains(sides@[k]),
            forall|other: Span|
                spans@.contains(other) ==> exists|k: int| 0 <= k < index && sides@[k] == other,
        decreases sides@.len() - index,
    {
        let side = sides[index];
        if !side.is_empty() {
            let ghost earlier = spans@;
            proof {
                assert forall|k: int| 0 <= k < spans@.len() implies !spans_meet(
                    #[trigger] spans@[k],
                    side,
                ) by {
                    assert(spans@.contains(spans@[k]));
                    let i = choose|i: int| 0 <= i < index && sides@[i] == spans@[k];
                    assert(!spans_meet(sides@[i], sides@[index as int]));
                }
            }
            insert_span(&mut spans, side);
            proof {
                assert forall|k: int|
                    0 <= k < index + 1 && !(#[trigger] sides@[k]).empty() implies spans@.contains(
                    sides@[k],
                ) by {
                    if k < index {
                        assert(earlier.contains(sides@[k]));
                    }
                }
                assert forall|other: Span| spans@.contains(other) implies exists|k: int|
                    0 <= k < index + 1 && sides@[k] == other by {
                    if other == side {
                        assert(sides@[index as int] == other);
                    } else {
                        assert(earlier.contains(other));
                        let k = choose|k: int| 0 <= k < index && sides@[k] == other;
                        assert(sides@[k] == other);
                    }
                }
            }
        }
        index += 1;
    }
    proof {
        assert forall|k: int| 0 <= k < spans@.len() implies sides@.contains(#[trigger] spans@[k]) by {
            assert(spans@.contains(spans@[k]));
        }
    }
    spans
}

/// A list of the nonempty sides meets what the sides meet.
proof fn lemma_side_meets(spans: Seq<Span>, sides: Seq<Span>, query: Span)
    requires
        lists_side(spans, sides),
    ensures
        any_meets(spans, query) == any_meets(sides, query),
{
    if any_meets(spans, query) {
        let k = choose|k: int| 0 <= k < spans.len() && spans_meet(#[trigger] spans[k], query);
        assert(sides.contains(spans[k]));
        let i = choose|i: int| 0 <= i < sides.len() && sides[i] == spans[k];
        assert(spans_meet(sides[i], query));
    }
    if any_meets(sides, query) {
        let k = choose|k: int| 0 <= k < sides.len() && spans_meet(#[trigger] sides[k], query);
        assert(spans.contains(sides[k]));
        let i = choose|i: int| 0 <= i < spans.len() && spans[i] == sides[k];
        assert(spans_meet(spans[i], query));
    }
}

impl FallbackIndex {
    /// Both lists are in order and hold the rows of the fallbacks.
    pub open spec fn indexes(self, fallbacks: Seq<LineFallback>) -> bool {
        &&& spans_in_order(self.before@)
        &&& spans_in_order(self.after@)
        &&& lists_side(self.before@, before_sides(fallbacks))
        &&& lists_side(self.after@, after_sides(fallbacks))
    }

    /// Index the rows of disjoint fallbacks.
    pub fn new(fallbacks: &Vec<LineFallback>) -> (index: FallbackIndex)
        requires
            fallbacks_apart(fallbacks@),
        ensures
            index.indexes(fallbacks@),
    {
        let mut before: Vec<Span> = Vec::new();
        let mut after: Vec<Span> = Vec::new();
        let mut position: usize = 0;
        while position < fallbacks.len()
            invariant
                position <= fallbacks@.len(),
                before@.len() == position,
                after@.len() == position,
                forall|k: int| 0 <= k < position ==> (#[trigger] before@[k]) == fallbacks@[k].before,
                forall|k: int| 0 <= k < position ==> (#[trigger] after@[k]) == fallbacks@[k].after,
            decreases fallbacks@.len() - position,
        {
            before.push(fallbacks[position].before);
            after.push(fallbacks[position].after);
            position += 1;
        }
        proof {
            assert(before@ =~= before_sides(fallbacks@));
            assert(after@ =~= after_sides(fallbacks@));
            assert forall|i: int, j: int|
                0 <= i < before@.len() && 0 <= j < before@.len() && i != j implies !spans_meet(
                #[trigger] before@[i],
                #[trigger] before@[j],
            ) by {
                assert(!fallbacks_meet(fallbacks@[i], fallbacks@[j]));
            }
            assert forall|i: int, j: int|
                0 <= i < after@.len() && 0 <= j < after@.len() && i != j implies !spans_meet(
                #[trigger] after@[i],
                #[trigger] after@[j],
            ) by {
                assert(!fallbacks_meet(fallbacks@[i], fallbacks@[j]));
            }
        }
        FallbackIndex { before: ordered_side(before), after: ordered_side(after) }
    }

    /// Whether rows of a unit belong to a fallback.
    pub fn suppresses(&self, before: Span, after: Span, Ghost(fallbacks): Ghost<Seq<LineFallback>>) -> (
        result: bool)
        requires
            self.indexes(fallbacks),
        ensures
            result == exists|k: int|
                0 <= k < fallbacks.len() && (spans_meet(
                    (#[trigger] fallbacks[k]).before,
                    before,
                ) || spans_meet(fallbacks[k].after, after)),
    {
        let result = indexed_ranges_overlap(&self.before, &before) || indexed_ranges_overlap(
            &self.after,
            &after,
        );
        proof {
            let old_sides = before_sides(fallbacks);
            let new_sides = after_sides(fallbacks);
            lemma_side_meets(self.before@, old_sides, before);
            lemma_side_meets(self.after@, new_sides, after);
            if any_meets(old_sides, before) {
                let k = choose|k: int|
                    0 <= k < old_sides.len() && spans_meet(#[trigger] old_sides[k], before);
                assert(spans_meet(fallbacks[k].before, before));
            }
            if any_meets(new_sides, after) {
                let k = choose|k: int|
                    0 <= k < new_sides.len() && spans_meet(#[trigger] new_sides[k], after);
                assert(spans_meet(fallbacks[k].after, after));
            }
            if exists|k: int|
                0 <= k < fallbacks.len() && (spans_meet(
                    (#[trigger] fallbacks[k]).before,
                    before,
                ) || spans_meet(fallbacks[k].after, after)) {
                let k = choose|k: int|
                    0 <= k < fallbacks.len() && (spans_meet(
                        (#[trigger] fallbacks[k]).before,
                        before,
                    ) || spans_meet(fallbacks[k].after, after));
                assert(old_sides[k] == fallbacks[k].before);
                assert(new_sides[k] == fallbacks[k].after);
            }
        }
        result
    }
}

} // verus!

//! Order of changes inside a hunk: by review unit, then by source.

use crate::correspondence::fallbacks::{edit_after, edit_before};
use crate::correspondence::geometry::zero_based_lines;
use crate::correspondence::links::UnitEdit;
use crate::plan::anchored::{order_place, place_of};
use crate::plan::order::{LineAlignment, SourceOrder};
use crate::plan::scene::PlanScene;
use crate::plan::sorting::{
    is_sorting, key_less, keyed, keys_ascend, lemma_sorting_members, sort_by, SortKey,
};
use crate::review::{
    after_line_of, before_line_of, folds_current, shows_current, SourceChange, SourceEdit,
};
use crate::span::Span;
use vstd::prelude::*;

verus! {

/// Current lines of a unit edit.
#[derive(Clone, Copy, Debug, PartialEq, Eq, Structural)]
pub struct OwnedLines {
    pub lines: Span,
    /// Position of the edit in the unit script.
    pub order: usize,
}

/// Unit-script ownership retained after nearby fragments meld into one visual hunk.
pub struct ReviewSequence {
    pub before_owner: Vec<Option<usize>>,
    pub after_owner: Vec<Option<usize>>,
    pub after_units: Vec<OwnedLines>,
}

/// Place of a change among the units: of its unit, or between two units.
#[derive(Clone, Copy, Debug, PartialEq, Eq, Structural)]
pub struct UnitRank {
    pub unit: usize,
    /// Whether the change belongs to the unit, instead of standing before it.
    pub owned: bool,
}

/// Owners name positions below the count.
pub open spec fn owners_below(owners: Seq<Option<usize>>, count: int) -> bool {
    forall|k: int| 0 <= k < owners.len() ==> ((#[trigger] owners[k]) matches Some(order) ==> order
        < count)
}

/// Lines without an owner.
fn unowned(count: usize) -> (owners: Vec<Option<usize>>)
    ensures
        owners@.len() == count,
        forall|k: int| 0 <= k < count ==> (#[trigger] owners@[k]) is None,
{
    let mut owners: Vec<Option<usize>> = Vec::new();
    while owners.len() < count
        invariant
            owners@.len() <= count,
            forall|k: int| 0 <= k < owners@.len() ==> (#[trigger] owners@[k]) is None,
        decreases count - owners@.len(),
    {
        owners.push(None);
    }
    owners
}

/// Give one-based lines to a unit edit.
fn claim(owners: &mut Vec<Option<usize>>, rows: Span, order: usize, Ghost(count): Ghost<int>)
    requires
        owners_below(old(owners)@, count),
        order < count,
        rows.start <= rows.end < old(owners)@.len(),
    ensures
        owners_below(final(owners)@, count),
        final(owners)@.len() == old(owners)@.len(),
        forall|line: int|
            rows.start < line <= rows.end ==> (#[trigger] final(owners)@[line]) == Some(order),
        forall|line: int|
            0 <= line < old(owners)@.len() && !(rows.start < line <= rows.end) ==> (
            #[trigger] final(owners)@[line]) == old(owners)@[line],
{
    let mut row = rows.start;
    while row < rows.end
        invariant
            owners_below(owners@, count),
            order < count,
            rows.start <= row <= rows.end < owners@.len(),
            owners@.len() == old(owners)@.len(),
            forall|line: int|
                rows.start < line <= row ==> (#[trigger] owners@[line]) == Some(order),
            forall|line: int|
                0 <= line < owners@.len() && !(rows.start < line <= row) ==> (
                #[trigger] owners@[line]) == old(owners)@[line],
        decreases rows.end - row,
    {
        owners.set(row + 1, Some(order));
        row += 1;
    }
}

impl ReviewSequence {
    /// Every owner is a unit edit.
    pub open spec fn wf(self, count: int) -> bool {
        &&& owners_below(self.before_owner@, count)
        &&& owners_below(self.after_owner@, count)
        &&& forall|k: int|
            0 <= k < self.after_units@.len() ==> (#[trigger] self.after_units@[k]).order < count
    }

    /// Every line is owned by the last reviewed unit that holds it.
    pub open spec fn describes(self, scene: PlanScene<'_>) -> bool {
        &&& self.before_owner@.len() == scene.before_count() + 1
        &&& self.after_owner@.len() == scene.after_count() + 1
        &&& forall|line: int|
            0 <= line <= scene.before_count() ==> (#[trigger] self.before_owner@[line])
                == line_owner(scene, line, true, scene.graph.source.review_units@.len() as int)
        &&& forall|line: int|
            0 <= line <= scene.after_count() ==> (#[trigger] self.after_owner@[line]) == line_owner(
                scene,
                line,
                false,
                scene.graph.source.review_units@.len() as int,
            )
        &&& forall|unit: OwnedLines| #[trigger]
            self.after_units@.contains(unit) <==> owns_lines(
                scene,
                scene.graph.source.review_units@.len() as int,
                unit,
            )
    }

    /// Owners of all lines.
    pub fn new(scene: &PlanScene<'_>) -> (sequence: ReviewSequence)
        requires
            scene.wf(),
        ensures
            sequence.wf(scene.graph.tree.units@.len() as int),
            sequence.describes(*scene),
    {
        proof {
            scene.pair.before.source.lemma_line_count();
            scene.pair.after.source.lemma_line_count();
        }
        let mut before_owner = unowned(scene.pair.before.source.line_count() + 1);
        let mut after_owner = unowned(scene.pair.after.source.line_count() + 1);
        let mut after_units: Vec<OwnedLines> = Vec::new();
        let mut keys: Vec<SortKey> = Vec::new();
        let ghost count = scene.graph.tree.units@.len() as int;
        let mut index: usize = 0;
        while index < scene.graph.source.review_units.len()
            invariant
                scene.wf(),
                scene.after_count() < usize::MAX,
                count == scene.graph.tree.units@.len(),
                index <= scene.graph.source.review_units@.len(),
                before_owner@.len() == scene.before_count() + 1,
                after_owner@.len() == scene.after_count() + 1,
                owners_below(before_owner@, count),
                owners_below(after_owner@, count),
                keys@.len() == after_units@.len(),
                forall|k: int|
                    0 <= k < after_units@.len() ==> (#[trigger] after_units@[k]).order < count,
                forall|line: int|
                    0 <= line <= scene.before_count() ==> (#[trigger] before_owner@[line])
                        == line_owner(*scene, line, true, index as int),
                forall|line: int|
                    0 <= line <= scene.after_count() ==> (#[trigger] after_owner@[line])
                        == line_owner(*scene, line, false, index as int),
                forall|unit: OwnedLines| #[trigger]
                    after_units@.contains(unit) <==> owns_lines(*scene, index as int, unit),
            decreases scene.graph.source.review_units@.len() - index,
        {
            let order = scene.graph.source.review_units[index];
            let ghost fewer = after_units@;
            proof {
                assert(scene.graph.source.review_units@[index as int] < count);
                assert(crate::correspondence::tree::edit_fits(
                    scene.graph.tree.units@[order as int],
                    scene.pair.before.nodes@.len() as int,
                    scene.pair.after.nodes@.len() as int,
                    scene.graph.tree.leaves.links@.len() as int,
                    scene.graph.tree.composites@.len() as int,
                ));
            }
            let (before, after) = match scene.graph.tree.units[order] {
                UnitEdit::Matched(unit) => (Some(unit.before), Some(unit.after)),
                UnitEdit::Removed { before } => (Some(before), None),
                UnitEdit::Added { after } => (None, Some(after)),
            };
            if let Some(id) = before {
                let rows = zero_based_lines(&scene.pair.before, id);
                claim(&mut before_owner, rows, order, Ghost(count));
            }
            if let Some(id) = after {
                let rows = zero_based_lines(&scene.pair.after, id);
                claim(&mut after_owner, rows, order, Ghost(count));
                if !rows.is_empty() {
                    let lines = Span { start: rows.start + 1, end: rows.end + 1 };
                    after_units.push(OwnedLines { lines, order });
                    keys.push(SortKey::new(lines.start, 0, 0, 0));
                }
            }
            proof {
                let edit = scene.graph.tree.units@[order as int];
                let rows = edit_after(*scene.pair, edit);
                let unit = OwnedLines {
                    lines: Span { start: (rows.start + 1) as usize, end: (rows.end + 1) as usize },
                    order,
                };
                assert forall|other: OwnedLines| #[trigger]
                    after_units@.contains(other) <==> owns_lines(*scene, index + 1, other) by {
                    if rows.empty() {
                        assert(after_units@ == fewer);
                    } else {
                        assert(after_units@ =~= fewer.push(unit));
                        if fewer.contains(other) {
                            let k = choose|k: int| 0 <= k < fewer.len() && fewer[k] == other;
                            assert(after_units@[k] == other);
                        }
                        assert(after_units@[fewer.len() as int] == unit);
                    }
                    assert(fewer.contains(other) <==> owns_lines(*scene, index as int, other));
                    lemma_owns_next(*scene, index as int, other);
                }
            }
            index += 1;
        }
        let ghost listed = after_units@;
        let ghost listed_keys = keys@;
        let after_units = sort_by(after_units, keys);
        proof {
            lemma_sorting_members(after_units@, listed, listed_keys);
            assert forall|k: int| 0 <= k < after_units@.len() implies (
            #[trigger] after_units@[k]).order < count by {
                assert(after_units@.contains(after_units@[k]));
                let i = choose|i: int| 0 <= i < listed.len() && listed[i] == after_units@[k];
                assert(listed[i].order < count);
            }
        }
        ReviewSequence { before_owner, after_owner, after_units }
    }

    /// Owner of the first edited line that has one.
    fn owner_of_edits(&self, edits: &Vec<SourceEdit>, removed: bool, Ghost(count): Ghost<int>) -> (owner:
        Option<usize>)
        requires
            self.wf(count),
        ensures
            owner matches Some(order) ==> order < count,
            owner == first_owner(
                if removed {
                    self.before_owner@
                } else {
                    self.after_owner@
                },
                numbers_of(edits@),
            ),
    {
        let ghost numbers = numbers_of(edits@);
        let ghost owners = if removed {
            self.before_owner@
        } else {
            self.after_owner@
        };
        let mut index: usize = 0;
        assert(numbers.skip(0) =~= numbers);
        while index < edits.len()
            invariant
                self.wf(count),
                index <= edits@.len(),
                numbers == numbers_of(edits@),
                owners == (if removed {
                    self.before_owner@
                } else {
                    self.after_owner@
                }),
                first_owner(owners, numbers) == first_owner(owners, numbers.skip(index as int)),
            decreases edits@.len() - index,
        {
            proof {
                let rest = numbers.skip(index as int);
                assert(rest[0] == edits@[index as int].number);
                assert(rest.skip(1) =~= numbers.skip(index + 1));
            }
            let owner = if removed {
                self.owner(Some(edits[index].number), true, Ghost(count))
            } else {
                self.owner(Some(edits[index].number), false, Ghost(count))
            };
            if owner.is_some() {
                return owner;
            }
            index += 1;
        }
        None
    }

    /// Owner of a line.
    fn owner(&self, line: Option<usize>, removed: bool, Ghost(count): Ghost<int>) -> (owner: Option<
        usize,
    >)
        requires
            self.wf(count),
        ensures
            owner matches Some(order) ==> order < count,
            owner == owner_in(
                if removed {
                    self.before_owner@
                } else {
                    self.after_owner@
                },
                line,
            ),
    {
        match line {
            Some(line) => {
                if removed {
                    if line < self.before_owner.len() {
                        assert(self.before_owner@[line as int] matches Some(order) ==> order
                            < count);
                        self.before_owner[line]
                    } else {
                        None
                    }
                } else if line < self.after_owner.len() {
                    assert(self.after_owner@[line as int] matches Some(order) ==> order < count);
                    self.after_owner[line]
                } else {
                    None
                }
            },
            None => None,
        }
    }

    /// Owner of a change: a one-line replacement belongs to the unit of its new line before that
    /// of its old line, a longer one to the unit of its old lines before that of its new ones.
    pub open spec fn owner_of_change(self, change: SourceChange) -> Option<usize> {
        match change {
            SourceChange::Replace { before, after, line_endings } => {
                let old_owner = first_owner(self.before_owner@, numbers_of(before@));
                let new_owner = first_owner(self.after_owner@, numbers_of(after@));
                if before@.len() == 1 && after@.len() == 1 {
                    if new_owner is Some {
                        new_owner
                    } else {
                        old_owner
                    }
                } else if old_owner is Some {
                    old_owner
                } else {
                    new_owner
                }
            },
            _ => {
                let current = owner_in(self.after_owner@, after_line_of(change));
                if current is Some {
                    current
                } else {
                    owner_in(self.before_owner@, before_line_of(change))
                }
            },
        }
    }

    /// Owner of a change: the unit of its current lines or of its old ones.
    fn change_owner(&self, change: &SourceChange, Ghost(count): Ghost<int>) -> (owner: Option<usize>)
        requires
            self.wf(count),
        ensures
            owner matches Some(order) ==> order < count,
            owner == self.owner_of_change(*change),
    {
        if let SourceChange::Replace { before, after, line_endings: _ } = change {
            let paired = before.len() == 1 && after.len() == 1;
            let first = self.owner_of_edits(
                if paired {
                    after
                } else {
                    before
                },
                !paired,
                Ghost(count),
            );
            if first.is_some() {
                return first;
            }
            return self.owner_of_edits(
                if paired {
                    before
                } else {
                    after
                },
                paired,
                Ghost(count),
            );
        }
        let current = self.owner(change.after_line(), false, Ghost(count));
        if current.is_some() {
            return current;
        }
        self.owner(change.before_line(), true, Ghost(count))
    }

    /// Rank of a current line that no unit owns: behind the last unit that ends before it, or
    /// before the first unit.
    fn unowned_after_rank(&self, line: usize, Ghost(count): Ghost<int>) -> (rank: UnitRank)
        requires
            self.wf(count),
            count <= usize::MAX,
        ensures
            is_after_rank(self.after_units@, line, rank),
    {
        let mut preceding: Option<usize> = None;
        let mut index: usize = 0;
        while index < self.after_units.len()
            invariant
                self.wf(count),
                count <= usize::MAX,
                index <= self.after_units@.len(),
                preceding == if index == 0 {
                    None
                } else {
                    Some(self.after_units@[index - 1].order)
                },
                forall|k: int|
                    0 <= k < index ==> (#[trigger] self.after_units@[k]).lines.end <= line,
            decreases self.after_units@.len() - index,
        {
            let unit = self.after_units[index];
            assert(self.after_units@[index as int].order < count);
            if unit.lines.contains(line) {
                assert(ends_before(self.after_units@, line, index as int));
                return UnitRank { unit: unit.order, owned: true };
            }
            if unit.lines.end > line {
                proof {
                    assert(ends_before(self.after_units@, line, index as int));
                    if index > 0 {
                        assert(self.after_units@[index - 1].order < count);
                    }
                }
                return match preceding {
                    Some(order) => UnitRank { unit: order + 1, owned: false },
                    None => UnitRank { unit: unit.order, owned: false },
                };
            }
            preceding = Some(unit.order);
            index += 1;
        }
        proof {
            assert(ends_before(self.after_units@, line, index as int));
            if index > 0 {
                assert(self.after_units@[index - 1].order < count);
            }
        }
        match preceding {
            Some(order) => UnitRank { unit: order + 1, owned: false },
            None => UnitRank { unit: 0, owned: false },
        }
    }

    /// Rank of an old line that no unit owns: behind the unit of the nearest owned line before it,
    /// or before the unit of the nearest one after it.
    fn unowned_before_rank(&self, line: usize, Ghost(count): Ghost<int>) -> (rank: Option<UnitRank>)
        requires
            self.wf(count),
            count <= usize::MAX,
        ensures
            rank matches Some(rank) ==> is_before_rank(self.before_owner@, line, rank),
            rank is None <==> forall|k: int|
                0 <= k < self.before_owner@.len() ==> (#[trigger] self.before_owner@[k]) is None,
    {
        let start = if line < self.before_owner.len() {
            line
        } else {
            self.before_owner.len()
        };
        let mut at = start;
        while at > 0
            invariant
                self.wf(count),
                count <= usize::MAX,
                at <= start <= self.before_owner@.len(),
                start <= line,
                start < line ==> start == self.before_owner@.len(),
                forall|k: int| at <= k < start ==> (#[trigger] self.before_owner@[k]) is None,
            decreases at,
        {
            at -= 1;
            assert(self.before_owner@[at as int] matches Some(order) ==> order < count);
            if let Some(order) = self.before_owner[at] {
                let rank = UnitRank { unit: order + 1, owned: false };
                assert(ranks_at(self.before_owner@, line, rank, at as int));
                return Some(rank);
            }
        }
        let mut at = start;
        while at < self.before_owner.len()
            invariant
                self.wf(count),
                start <= at <= self.before_owner@.len(),
                start < line ==> start == self.before_owner@.len(),
                forall|k: int| 0 <= k < at ==> (#[trigger] self.before_owner@[k]) is None,
            decreases self.before_owner@.len() - at,
        {
            assert(self.before_owner@[at as int] matches Some(order) ==> order < count);
            if let Some(order) = self.before_owner[at] {
                let rank = UnitRank { unit: order, owned: false };
                assert(ranks_at(self.before_owner@, line, rank, at as int));
                return Some(rank);
            }
            at += 1;
        }
        None
    }

    /// Rank of a change among the units.
    fn group_rank(
        &self,
        change: &SourceChange,
        alignment: &LineAlignment<'_>,
        Ghost(count): Ghost<int>,
    ) -> (rank: UnitRank)
        requires
            self.wf(count),
            count <= usize::MAX,
            alignment.wf(),
        ensures
            self.owner_of_change(*change) matches Some(unit) ==> rank == (UnitRank {
                unit,
                owned: true,
            }),
            self.owner_of_change(*change) is None ==> self.is_group_rank(*change, *alignment, rank),
    {
        if let Some(unit) = self.change_owner(change, Ghost(count)) {
            return UnitRank { unit, owned: true };
        }
        if let SourceChange::Replace { before, after, line_endings: _ } = change {
            if after.len() == 0 {
                if let Some(line) = least_number(before) {
                    if let Some(rank) = self.unowned_before_rank(line, Ghost(count)) {
                        assert(is_before_rank(self.before_owner@, line, rank));
                        return rank;
                    }
                }
            }
        }
        let line = match least_after_line(change) {
            Some(line) => line,
            None => match least_anchor(change, alignment) {
                Some(line) => line,
                None => 1,
            },
        };
        let rank = self.unowned_after_rank(line, Ghost(count));
        assert(is_after_rank(self.after_units@, line, rank));
        assert(stands_at(*change, *alignment, line));
        rank
    }

    /// Rank of a change that no unit owns: old lines alone stand where their least one stands
    /// among the owned old lines, if there are any; everything else where its least current line
    /// stands among the units, or else the current line at which its first old line would stand.
    pub open spec fn is_group_rank(
        self,
        change: SourceChange,
        alignment: LineAlignment<'_>,
        rank: UnitRank,
    ) -> bool {
        let lone = change matches SourceChange::Replace { before, after, line_endings }
            && after@.len() == 0 && before@.len() > 0 && exists|k: int|
            0 <= k < self.before_owner@.len() && (#[trigger] self.before_owner@[k]) is Some;
        if lone {
            exists|line: usize| #[trigger]
                is_before_rank(self.before_owner@, line, rank) && is_least(
                    numbers_of(change->Replace_before@),
                    line,
                )
        } else {
            exists|line: usize| #[trigger]
                is_after_rank(self.after_units@, line, rank) && stands_at(change, alignment, line)
        }
    }
}

/// The current line at which the change stands: its least one, or else that at which its first
/// old line would stand, or else the first.
pub open spec fn stands_at(
    change: SourceChange,
    alignment: LineAlignment<'_>,
    line: usize,
) -> bool {
    let anchored = if alignment.after_lines == 0 || names_no_old_line(change) {
        line == 1
    } else {
        is_least_anchor(change, alignment, line)
    };
    match change {
        SourceChange::Replace { before, after, line_endings } => if after@.len() > 0 {
            is_least(numbers_of(after@), line)
        } else {
            anchored
        },
        _ => match after_line_of(change) {
            Some(at) => line == at,
            None => anchored,
        },
    }
}

/// Rows of a reviewed unit in one revision.
pub open spec fn reviewed_rows(scene: PlanScene<'_>, at: int, removed: bool) -> Span {
    let edit = scene.graph.tree.units@[scene.graph.source.review_units@[at] as int];
    if removed {
        edit_before(*scene.pair, edit)
    } else {
        edit_after(*scene.pair, edit)
    }
}

/// The last of the first reviewed units that holds the line.
pub open spec fn line_owner(
    scene: PlanScene<'_>,
    line: int,
    removed: bool,
    count: int,
) -> Option<usize>
    decreases count,
{
    if count <= 0 {
        None
    } else if reviewed_rows(scene, count - 1, removed).has(line - 1) {
        Some(scene.graph.source.review_units@[count - 1])
    } else {
        line_owner(scene, line, removed, count - 1)
    }
}

/// Lines and position of one of the first reviewed units that hold current rows.
pub open spec fn owns_lines(scene: PlanScene<'_>, count: int, unit: OwnedLines) -> bool {
    exists|at: int|
        0 <= at < count && unit.order == (
        #[trigger] scene.graph.source.review_units@[at]) && !reviewed_rows(
            scene,
            at,
            false,
        ).empty() && unit.lines == (Span {
            start: (reviewed_rows(scene, at, false).start + 1) as usize,
            end: (reviewed_rows(scene, at, false).end + 1) as usize,
        })
}

/// One more reviewed unit.
proof fn lemma_owns_next(scene: PlanScene<'_>, count: int, unit: OwnedLines)
    requires
        0 <= count < scene.graph.source.review_units@.len(),
    ensures
        owns_lines(scene, count + 1, unit) <==> owns_lines(scene, count, unit) || (unit.order
            == scene.graph.source.review_units@[count] && !reviewed_rows(
            scene,
            count,
            false,
        ).empty() && unit.lines == (Span {
            start: (reviewed_rows(scene, count, false).start + 1) as usize,
            end: (reviewed_rows(scene, count, false).end + 1) as usize,
        })),
{
    if owns_lines(scene, count, unit) {
        let at = choose|at: int|
            0 <= at < count && unit.order == (
            #[trigger] scene.graph.source.review_units@[at]) && !reviewed_rows(
                scene,
                at,
                false,
            ).empty() && unit.lines == (Span {
                start: (reviewed_rows(scene, at, false).start + 1) as usize,
                end: (reviewed_rows(scene, at, false).end + 1) as usize,
            });
        assert(unit.order == scene.graph.source.review_units@[at]);
    }
}

/// Rank of a current line by the first unit that does not end before it: the unit's own where it
/// holds the line; else behind the unit before it, or before the first unit.
pub open spec fn is_after_rank(units: Seq<OwnedLines>, line: usize, rank: UnitRank) -> bool {
    exists|k: int|
        0 <= k <= units.len() && #[trigger] ends_before(units, line, k) && rank == if k
            < units.len() && units[k].lines.has(line as int) {
            UnitRank { unit: units[k].order, owned: true }
        } else if k > 0 {
            UnitRank { unit: (units[k - 1].order + 1) as usize, owned: false }
        } else if units.len() > 0 {
            UnitRank { unit: units[0].order, owned: false }
        } else {
            UnitRank { unit: 0, owned: false }
        }
}

/// The first units end before the line, and the next one does not.
pub open spec fn ends_before(units: Seq<OwnedLines>, line: usize, count: int) -> bool {
    &&& forall|k: int| 0 <= k < count ==> (#[trigger] units[k]).lines.end <= line
    &&& count < units.len() ==> units[count].lines.end > line
}

/// Rank of an old line: behind the unit of the nearest owned line before it, or before the unit
/// of the nearest one from it on.
pub open spec fn is_before_rank(
    owners: Seq<Option<usize>>,
    line: usize,
    rank: UnitRank,
) -> bool {
    exists|at: int| #[trigger] ranks_at(owners, line, rank, at)
}

/// The owned line ranks the old line: it is the nearest one before it, or else the first.
pub open spec fn ranks_at(
    owners: Seq<Option<usize>>,
    line: usize,
    rank: UnitRank,
    at: int,
) -> bool {
    &&& 0 <= at < owners.len()
    &&& owners[at] is Some
    &&& if at < line {
        &&& rank == (UnitRank { unit: (owners[at]->0 + 1) as usize, owned: false })
        &&& forall|k: int| at < k < owners.len() && k < line ==> (#[trigger] owners[k]) is None
    } else {
        &&& rank == (UnitRank { unit: owners[at]->0, owned: false })
        &&& forall|k: int| 0 <= k < at ==> (#[trigger] owners[k]) is None
    }
}

/// Owner of a line in a table.
pub open spec fn owner_in(owners: Seq<Option<usize>>, line: Option<usize>) -> Option<usize> {
    match line {
        Some(line) => if line < owners.len() {
            owners[line as int]
        } else {
            None
        },
        None => None,
    }
}

/// Owner of the first line that has one.
pub open spec fn first_owner(owners: Seq<Option<usize>>, lines: Seq<usize>) -> Option<usize>
    decreases lines.len(),
{
    if lines.len() == 0 {
        None
    } else if owner_in(owners, Some(lines[0])) is Some {
        owner_in(owners, Some(lines[0]))
    } else {
        first_owner(owners, lines.skip(1))
    }
}

/// Least number among edits.
fn least_number(edits: &Vec<SourceEdit>) -> (least: Option<usize>)
    ensures
        least is None <==> edits@.len() == 0,
        least matches Some(least) ==> is_least(numbers_of(edits@), least),
{
    let mut least: Option<usize> = None;
    let mut index: usize = 0;
    while index < edits.len()
        invariant
            index <= edits@.len(),
            least is None <==> index == 0,
            least matches Some(least) ==> is_least(numbers_of(edits@.take(index as int)), least),
        decreases edits@.len() - index,
    {
        let number = edits[index].number;
        let ghost earlier = least;
        least =
        match least {
            Some(least) => if least <= number {
                Some(least)
            } else {
                Some(number)
            },
            None => Some(number),
        };
        proof {
            let before = numbers_of(edits@.take(index as int));
            let longer = numbers_of(edits@.take(index + 1));
            assert(longer =~= before.push(number));
            assert(longer[index as int] == number);
            if let Some(value) = earlier {
                let k = choose|k: int| 0 <= k < before.len() && #[trigger] before[k] == value;
                assert(longer[k] == value);
            }
            assert forall|k: int| 0 <= k < longer.len() implies least->0 <= #[trigger] longer[k] by {
                if k < before.len() {
                    assert(longer[k] == before[k]);
                }
            }
        }
        index += 1;
    }
    assert(edits@.take(index as int) =~= edits@);
    least
}

/// Line numbers of edits.
pub open spec fn numbers_of(edits: Seq<SourceEdit>) -> Seq<usize> {
    edits.map_values(|edit: SourceEdit| edit.number)
}

/// The value is in the list, and nothing in the list is less.
pub open spec fn is_least(values: Seq<usize>, least: usize) -> bool {
    &&& exists|k: int| 0 <= k < values.len() && #[trigger] values[k] == least
    &&& forall|k: int| 0 <= k < values.len() ==> least <= #[trigger] values[k]
}

/// Place of a current line.
pub open spec fn is_current(order: SourceOrder, line: usize) -> bool {
    order.deletion is None && order.after_gap.lines == if line > 0 {
        line - 1
    } else {
        0
    }
}

/// Place of a change: of its least current line, or else the first place of its old lines.
pub open spec fn is_change_order(
    change: SourceChange,
    alignment: LineAlignment<'_>,
    order: SourceOrder,
) -> bool {
    match change {
        SourceChange::Replace { before, after, line_endings } => if after@.len() > 0 {
            exists|line: usize| #[trigger] is_least(numbers_of(after@), line) && is_current(order, line)
        } else if before@.len() > 0 {
            alignment.is_first_place(numbers_of(before@), order)
        } else {
            is_current(order, 1)
        },
        _ => match after_line_of(change) {
            Some(line) => is_current(order, line),
            None => match before_line_of(change) {
                Some(line) => alignment.is_place(line, order),
                None => is_current(order, 1),
            },
        },
    }
}

/// Least current line of a change.
fn least_after_line(change: &SourceChange) -> (line: Option<usize>)
    ensures
        change matches SourceChange::Replace { before, after, line_endings } ==> (line is None
            <==> after@.len() == 0) && (line matches Some(line) ==> is_least(
            numbers_of(after@),
            line,
        )),
        !(change is Replace) ==> line == crate::review::after_line_of(*change),
{
    if let SourceChange::Replace { before: _, after, line_endings: _ } = change {
        return least_number(after);
    }
    change.after_line()
}

/// The old line stands at the current line or behind it.
pub open spec fn anchors_from(
    alignment: LineAlignment<'_>,
    before_line: usize,
    line: usize,
) -> bool {
    exists|anchor: usize| #[trigger]
        alignment.is_anchor_line(before_line, anchor) && line <= anchor
}

/// The first of the edited old lines stands at the current line.
pub open spec fn anchors_first(
    edits: Seq<SourceEdit>,
    alignment: LineAlignment<'_>,
    line: usize,
) -> bool {
    &&& exists|k: int|
        0 <= k < edits.len() && alignment.is_anchor_line((#[trigger] edits[k]).number, line)
    &&& forall|k: int|
        0 <= k < edits.len() ==> anchors_from(alignment, (#[trigger] edits[k]).number, line)
}

/// The first old line of the change stands at the current line.
pub open spec fn is_least_anchor(
    change: SourceChange,
    alignment: LineAlignment<'_>,
    line: usize,
) -> bool {
    match change {
        SourceChange::Replace { before, after, line_endings } => anchors_first(
            before@,
            alignment,
            line,
        ),
        _ => before_line_of(change) matches Some(old_line) && alignment.is_anchor_line(
            old_line,
            line,
        ),
    }
}

/// The change stands at no old line.
pub open spec fn names_no_old_line(change: SourceChange) -> bool {
    match change {
        SourceChange::Replace { before, after, line_endings } => before@.len() == 0,
        _ => before_line_of(change) is None,
    }
}

/// Least current line at which old lines of a change stand.
fn least_anchor(change: &SourceChange, alignment: &LineAlignment<'_>) -> (line: Option<usize>)
    requires
        alignment.wf(),
    ensures
        line matches Some(line) ==> 1 <= line <= alignment.after_lines,
        match line {
            Some(line) => is_least_anchor(*change, *alignment, line),
            None => alignment.after_lines == 0 || names_no_old_line(*change),
        },
{
    if let SourceChange::Replace { before, after: _, line_endings: _ } = change {
        let mut least: Option<usize> = None;
        let mut index: usize = 0;
        while index < before.len()
            invariant
                alignment.wf(),
                index <= before@.len(),
                least matches Some(line) ==> 1 <= line <= alignment.after_lines,
                match least {
                    Some(line) => anchors_first(before@.take(index as int), *alignment, line),
                    None => alignment.after_lines == 0 || index == 0,
                },
            decreases before@.len() - index,
        {
            let ghost earlier = least;
            if let Some(anchor) = alignment.current_anchor(before[index].number) {
                least =
                match least {
                    Some(line) => if line <= anchor {
                        Some(line)
                    } else {
                        Some(anchor)
                    },
                    None => Some(anchor),
                };
                proof {
                    let shorter = before@.take(index as int);
                    let longer = before@.take(index + 1);
                    let line = least->0;
                    assert(longer[index as int] == before@[index as int]);
                    assert(alignment.is_anchor_line(longer[index as int].number, anchor));
                    assert forall|k: int| 0 <= k < longer.len() implies anchors_from(
                        *alignment,
                        (#[trigger] longer[k]).number,
                        line,
                    ) by {
                        if k < index {
                            assert(anchors_from(*alignment, shorter[k].number, earlier->0));
                            let other = choose|other: usize| #[trigger]
                                alignment.is_anchor_line(shorter[k].number, other) && earlier->0
                                    <= other;
                            assert(alignment.is_anchor_line(longer[k].number, other));
                        } else {
                            assert(alignment.is_anchor_line(longer[k].number, anchor));
                        }
                    }
                    if line != anchor {
                        let k = choose|k: int|
                            0 <= k < shorter.len() && alignment.is_anchor_line(
                                (#[trigger] shorter[k]).number,
                                line,
                            );
                        assert(alignment.is_anchor_line(longer[k].number, line));
                    }
                }
            }
            index += 1;
        }
        assert(before@.take(index as int) =~= before@);
        return least;
    }
    match change.before_line() {
        Some(line) => alignment.current_anchor(line),
        None => None,
    }
}

/// A mixed replacement belongs at its current-world position. Its old run is display payload, not
/// an earlier independent source event.
pub fn change_source_order(change: &SourceChange, alignment: &LineAlignment<'_>) -> (order: SourceOrder)
    requires
        alignment.wf(),
    ensures
        is_change_order(*change, *alignment, order),
{
    if let Some(line) = least_after_line(change) {
        return SourceOrder::current(line);
    }
    if let SourceChange::Replace { before, after: _, line_endings: _ } = change {
        let mut least: Option<SourceOrder> = None;
        let mut index: usize = 0;
        while index < before.len()
            invariant
                alignment.wf(),
                index <= before@.len(),
                least is None <==> index == 0,
                least matches Some(order) ==> alignment.is_first_place(
                    numbers_of(before@.take(index as int)),
                    order,
                ),
            decreases before@.len() - index,
        {
            let order = alignment.before_order(before[index].number);
            proof {
                let lines = numbers_of(before@.take(index as int));
                let number = before@[index as int].number;
                assert(numbers_of(before@.take(index + 1)) =~= lines.push(number));
                if let Some(first) = least {
                    alignment.lemma_one_more_place(lines, number, first, order);
                } else {
                    assert(lines.push(number)[0] == number);
                    assert(alignment.places_later(number, order));
                    assert(alignment.is_first_place(lines.push(number), order));
                }
            }
            least =
            match least {
                Some(least) => if order.precedes(&least) {
                    Some(order)
                } else {
                    Some(least)
                },
                None => Some(order),
            };
            index += 1;
        }
        assert(before@.take(index as int) =~= before@);
        return match least {
            Some(order) => order,
            None => SourceOrder::current(1),
        };
    }
    match change.before_line() {
        Some(line) => alignment.before_order(line),
        None => SourceOrder::current(1),
    }
}

/// Key of a change: its unit where it has one, then its place.
pub open spec fn is_change_key(
    change: SourceChange,
    sequence: Option<ReviewSequence>,
    alignment: LineAlignment<'_>,
    key: SortKey,
) -> bool {
    &&& exists|order: SourceOrder| #[trigger]
        is_change_order(change, alignment, order) && order_place(order) == (key.third, key.fourth)
    &&& sequence is None ==> key.first == 0 && key.second == 0
    &&& sequence matches Some(sequence) ==> match sequence.owner_of_change(change) {
        Some(unit) => key.first == unit && key.second == 1,
        None => exists|rank: UnitRank| #[trigger]
            sequence.is_group_rank(change, alignment, rank) && key.first == rank.unit && key.second
                == if rank.owned {
                1int
            } else {
                0int
            },
    }
}

/// The changes come in the order of their keys.
pub open spec fn is_ordered(
    changes: Seq<SourceChange>,
    sequence: Option<ReviewSequence>,
    alignment: LineAlignment<'_>,
) -> bool {
    exists|keys: Seq<SortKey>| #[trigger]
        are_change_keys(changes, sequence, alignment, keys) && keys_ascend(keys)
}

/// The line is the least current one that the change displays or stands for.
pub open spec fn leads_with(change: SourceChange, line: usize) -> bool {
    &&& 1 <= line
    &&& shows_current(change, line as int) || folds_current(change, line as int)
    &&& forall|other: int|
        #![trigger shows_current(change, other)]
        #![trigger folds_current(change, other)]
        shows_current(change, other) || folds_current(change, other) ==> line <= other
}

/// Ordered changes follow the current file, where there are no units to go by and inside each
/// unit; and the units follow each other.
pub proof fn law_changes_follow_the_current_file(
    changes: Seq<SourceChange>,
    sequence: Option<ReviewSequence>,
    alignment: LineAlignment<'_>,
    earlier: int,
    later: int,
    first: usize,
    second: usize,
)
    requires
        is_ordered(changes, sequence, alignment),
        0 <= earlier < later < changes.len(),
        leads_with(changes[earlier], first),
        leads_with(changes[later], second),
    ensures
        sequence is None ==> first <= second,
        sequence matches Some(units) ==> (units.owner_of_change(changes[earlier]) matches Some(own)
            ==> (units.owner_of_change(changes[later]) matches Some(other) ==> own <= other && (own
            == other ==> first <= second))),
{
    let keys = choose|keys: Seq<SortKey>| #[trigger]
        are_change_keys(changes, sequence, alignment, keys) && keys_ascend(keys);
    assert(!key_less(keys[later], keys[earlier]));
    lemma_led_place(changes[earlier], sequence, alignment, keys[earlier], first);
    lemma_led_place(changes[later], sequence, alignment, keys[later], second);
}

/// A change that leads with a current line has its place before it.
proof fn lemma_led_place(
    change: SourceChange,
    sequence: Option<ReviewSequence>,
    alignment: LineAlignment<'_>,
    key: SortKey,
    line: usize,
)
    requires
        is_change_key(change, sequence, alignment, key),
        leads_with(change, line),
    ensures
        key.third == line - 1,
        key.fourth == usize::MAX,
{
    let order = choose|order: SourceOrder| #[trigger]
        is_change_order(change, alignment, order) && order_place(order) == (key.third, key.fourth);
    if let SourceChange::Replace { before, after, line_endings } = change {
        let k = choose|k: int| 0 <= k < after@.len() && (#[trigger] after@[k]).number == line;
        let least = choose|least: usize| #[trigger]
            is_least(numbers_of(after@), least) && is_current(order, least);
        assert(numbers_of(after@)[k] == line);
        let at = choose|at: int|
            0 <= at < numbers_of(after@).len() && numbers_of(after@)[at] == least;
        assert(after@[at].number == least);
        assert(shows_current(change, least as int));
        assert(least == line);
    } else if let SourceChange::Move(block) = change {
        assert(shows_current(change, block.after.start as int));
    } else if let SourceChange::Elision(coverage) = change {
        assert(folds_current(change, coverage.after->0.start as int));
    }
}

/// A sorting of changes by their keys is in order.
proof fn lemma_sorting_ordered(
    sorted: Seq<SourceChange>,
    changes: Seq<SourceChange>,
    sequence: Option<ReviewSequence>,
    alignment: LineAlignment<'_>,
    keys: Seq<SortKey>,
)
    requires
        are_change_keys(changes, sequence, alignment, keys),
        is_sorting(sorted, changes, keys),
    ensures
        is_ordered(sorted, sequence, alignment),
{
    broadcast use vstd::seq_lib::group_to_multiset_ensures;

    let sorted_keys = choose|sorted_keys: Seq<SortKey>|
        sorted_keys.len() == sorted.len() && #[trigger] keys_ascend(sorted_keys) && keyed(
            sorted,
            sorted_keys,
        ).to_multiset() == keyed(changes, keys).to_multiset();
    let left = keyed(sorted, sorted_keys);
    let right = keyed(changes, keys);
    assert forall|k: int| 0 <= k < sorted_keys.len() implies is_change_key(
        sorted[k],
        sequence,
        alignment,
        #[trigger] sorted_keys[k],
    ) by {
        assert(left[k] == (sorted[k], sorted_keys[k]));
        assert(left.contains(left[k]));
        assert(left.to_multiset().count(left[k]) > 0);
        assert(right.contains(left[k]));
        let i = choose|i: int| 0 <= i < right.len() && right[i] == left[k];
        assert(right[i] == (changes[i], keys[i]));
        assert(is_change_key(changes[i], sequence, alignment, keys[i]));
    }
    assert(are_change_keys(sorted, sequence, alignment, sorted_keys));
}

/// Changes picked in order from changes in order are in order.
pub proof fn lemma_picked_ordered(
    changes: Seq<SourceChange>,
    picked: Seq<SourceChange>,
    places: Seq<int>,
    sequence: Option<ReviewSequence>,
    alignment: LineAlignment<'_>,
)
    requires
        is_ordered(changes, sequence, alignment),
        picks_in_order(changes, picked, places),
    ensures
        is_ordered(picked, sequence, alignment),
{
    let keys = choose|keys: Seq<SortKey>| #[trigger]
        are_change_keys(changes, sequence, alignment, keys) && keys_ascend(keys);
    let own = Seq::new(picked.len(), |k: int| keys[places[k]]);
    assert forall|k: int| 0 <= k < own.len() implies is_change_key(
        picked[k],
        sequence,
        alignment,
        #[trigger] own[k],
    ) by {
        assert(0 <= places[k] < changes.len());
        assert(is_change_key(changes[places[k]], sequence, alignment, keys[places[k]]));
    }
    assert forall|i: int, j: int| 0 <= i < j < own.len() implies !key_less(
        #[trigger] own[j],
        #[trigger] own[i],
    ) by {
        assert(places[i] < places[j]);
        assert(!key_less(keys[places[j]], keys[places[i]]));
    }
    assert(are_change_keys(picked, sequence, alignment, own));
}

/// The items are picked from others, in their order.
pub open spec fn picks_in_order<T>(items: Seq<T>, picked: Seq<T>, places: Seq<int>) -> bool {
    &&& places.len() == picked.len()
    &&& forall|k: int|
        0 <= k < places.len() ==> 0 <= (#[trigger] places[k]) < items.len() && picked[k]
            == items[places[k]]
    &&& forall|i: int, j: int|
        0 <= i < j < places.len() ==> (#[trigger] places[i]) < (#[trigger] places[j])
}

/// Keys of all changes.
pub open spec fn are_change_keys(
    changes: Seq<SourceChange>,
    sequence: Option<ReviewSequence>,
    alignment: LineAlignment<'_>,
    keys: Seq<SortKey>,
) -> bool {
    &&& keys.len() == changes.len()
    &&& forall|k: int|
        0 <= k < keys.len() ==> is_change_key(changes[k], sequence, alignment, #[trigger] keys[k])
}

/// Order the changes of a hunk by unit, where units are given, and then by source.
pub fn order_changes(
    changes: Vec<SourceChange>,
    sequence: &Option<ReviewSequence>,
    alignment: &LineAlignment<'_>,
    Ghost(count): Ghost<int>,
) -> (sorted: Vec<SourceChange>)
    requires
        alignment.wf(),
        count <= usize::MAX,
        sequence matches Some(sequence) ==> sequence.wf(count),
    ensures
        sorted@.len() == changes@.len(),
        forall|change: SourceChange| #[trigger]
            sorted@.contains(change) <==> changes@.contains(change),
        exists|keys: Seq<SortKey>| #[trigger]
            are_change_keys(changes@, *sequence, *alignment, keys) && is_sorting(
                sorted@,
                changes@,
                keys,
            ),
        sorted@.to_multiset() == changes@.to_multiset(),
        is_ordered(sorted@, *sequence, *alignment),
{
    let ghost listed = changes@;
    let mut keys: Vec<SortKey> = Vec::new();
    let mut index: usize = 0;
    while index < changes.len()
        invariant
            alignment.wf(),
            count <= usize::MAX,
            sequence matches Some(sequence) ==> sequence.wf(count),
            index <= changes@.len(),
            keys@.len() == index,
            forall|k: int|
                0 <= k < keys@.len() ==> is_change_key(
                    changes@[k],
                    *sequence,
                    *alignment,
                    #[trigger] keys@[k],
                ),
        decreases changes@.len() - index,
    {
        let change = &changes[index];
        let rank = match sequence {
            Some(sequence) => sequence.group_rank(change, alignment, Ghost(count)),
            None => UnitRank { unit: 0, owned: false },
        };
        let order = change_source_order(change, alignment);
        let (gap, within) = place_of(order);
        keys.push(
            SortKey::new(
                rank.unit,
                if rank.owned {
                    1
                } else {
                    0
                },
                gap,
                within,
            ),
        );
        assert(is_change_order(changes@[index as int], *alignment, order));
        index += 1;
    }
    let ghost listed_keys = keys@;
    assert(are_change_keys(changes@, *sequence, *alignment, listed_keys));
    let sorted = sort_by(changes, keys);
    proof {
        lemma_sorting_members(sorted@, listed, listed_keys);
        lemma_sorting_ordered(sorted@, listed, *sequence, *alignment, listed_keys);
    }
    sorted
}

} // verus!

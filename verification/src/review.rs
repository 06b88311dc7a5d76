//! Source changes in review order, before they become styled rows.

use crate::source::LineEnding;
use crate::span::Span;
use vstd::prelude::*;

verus! {

/// One-based, half-open before/after bounds covered by a review row or hunk.
#[derive(Clone, Copy, Debug, PartialEq, Eq, Structural)]
pub struct LineCoverage {
    pub before: Option<Span>,
    pub after: Option<Span>,
}

impl LineCoverage {
    /// Nothing covered yet.
    pub fn nothing() -> (coverage: LineCoverage)
        ensures
            coverage.before is None,
            coverage.after is None,
    {
        LineCoverage { before: None, after: None }
    }
}

/// A one-based source line with the byte ranges that changed in it.
#[derive(Clone, Debug, PartialEq, Eq)]
pub struct SourceEdit {
    pub number: usize,
    pub changed_bytes: Vec<Span>,
}

/// Terminator of one line.
#[derive(Clone, Copy, Debug, PartialEq, Eq, Structural)]
pub struct LineEndpoint {
    pub line: usize,
    pub ending: LineEnding,
}

/// Terminators that differ, or a missing one that only one revision has.
#[derive(Clone, Copy, Debug, PartialEq, Eq, Structural)]
pub struct LineEndingChange {
    pub before: Option<LineEndpoint>,
    pub after: Option<LineEndpoint>,
}

/// Lines that moved as one block; both ranges are one-based.
#[derive(Clone, Debug, PartialEq, Eq)]
pub struct MoveBlock {
    pub before: Span,
    pub after: Span,
    pub line_endings: Vec<LineEndingChange>,
}

/// A one-line wiring edit.
#[derive(Clone, Copy, Debug, PartialEq, Eq, Structural)]
pub struct CompactChange {
    pub before_bytes: Option<Span>,
    pub after_bytes: Option<Span>,
    pub before_line: Option<usize>,
    pub after_line: Option<usize>,
}

/// One change or context line, in source coordinates.
#[derive(Clone, Debug, PartialEq, Eq)]
pub enum SourceChange {
    /// Unchanged current line.
    Context(usize),
    /// Current line edited in place.
    Edited(SourceEdit),
    /// Current line whose layout changed.
    Reflow(usize),
    /// Old lines replaced by current lines.
    Replace {
        before: Vec<SourceEdit>,
        after: Vec<SourceEdit>,
        line_endings: Vec<LineEndingChange>,
    },
    LineEnding(LineEndingChange),
    Move(MoveBlock),
    Compact(CompactChange),
    /// Omitted lines.
    Elision(LineCoverage),
}

/// Changes of one hunk, in display order.
#[derive(Clone, Debug, PartialEq, Eq)]
pub struct RefinedHunk {
    pub coverage: LineCoverage,
    pub changes: Vec<SourceChange>,
}

/// The line exists.
pub open spec fn is_line(number: usize, count: int) -> bool {
    1 <= number <= count
}

/// Every edited line exists.
pub open spec fn edits_exist(edits: Seq<SourceEdit>, count: int) -> bool {
    forall|k: int| 0 <= k < edits.len() ==> is_line((#[trigger] edits[k]).number, count)
}

/// Every line that the change names exists.
pub open spec fn change_fits(change: SourceChange, before_count: int, after_count: int) -> bool {
    match change {
        SourceChange::Context(line) => is_line(line, after_count),
        SourceChange::Edited(line) => is_line(line.number, after_count),
        SourceChange::Reflow(line) => is_line(line, after_count),
        SourceChange::Replace { before, after, line_endings } => edits_exist(before@, before_count)
            && edits_exist(after@, after_count) && (before@.len() > 0 || after@.len() > 0),
        SourceChange::LineEnding(ending) => true,
        SourceChange::Move(block) => {
            &&& 1 <= block.before.start <= block.before.end <= before_count + 1
            &&& 1 <= block.after.start < block.after.end <= after_count + 1
        },
        SourceChange::Compact(compact) => {
            &&& compact.before_line matches Some(line) ==> is_line(line, before_count)
            &&& compact.after_line matches Some(line) ==> is_line(line, after_count)
            &&& compact.before_line is Some || compact.after_line is Some
        },
        SourceChange::Elision(coverage) => {
            &&& coverage.before matches Some(lines) ==> 1 <= lines.start < lines.end <= before_count
                + 1
            &&& coverage.after matches Some(lines) ==> 1 <= lines.start < lines.end <= after_count
                + 1
            &&& coverage.before is Some || coverage.after is Some
        },
    }
}

pub open spec fn changes_fit(
    changes: Seq<SourceChange>,
    before_count: int,
    after_count: int,
) -> bool {
    forall|k: int|
        0 <= k < changes.len() ==> change_fits(#[trigger] changes[k], before_count, after_count)
}

/// Smallest current line that the change shows or stands for.
pub open spec fn after_line_of(change: SourceChange) -> Option<usize> {
    match change {
        SourceChange::Context(line) => Some(line),
        SourceChange::Edited(line) => Some(line.number),
        SourceChange::Reflow(line) => Some(line),
        SourceChange::Replace { before, after, line_endings } => if after@.len() > 0 {
            Some(after@[0].number)
        } else {
            None
        },
        SourceChange::LineEnding(ending) => None,
        SourceChange::Move(block) => Some(block.after.start),
        SourceChange::Compact(compact) => compact.after_line,
        SourceChange::Elision(coverage) => match coverage.after {
            Some(lines) => Some(lines.start),
            None => None,
        },
    }
}

/// Smallest old line that the change shows or stands for.
pub open spec fn before_line_of(change: SourceChange) -> Option<usize> {
    match change {
        SourceChange::Replace { before, after, line_endings } => if before@.len() > 0 {
            Some(before@[0].number)
        } else {
            None
        },
        SourceChange::Move(block) => Some(block.before.start),
        SourceChange::Compact(compact) => compact.before_line,
        SourceChange::Elision(coverage) => match coverage.before {
            Some(lines) => Some(lines.start),
            None => None,
        },
        _ => None,
    }
}

/// Last current line that the change displays.
pub open spec fn last_displayed(change: SourceChange) -> Option<usize> {
    match change {
        SourceChange::Context(line) => Some(line),
        SourceChange::Edited(line) => Some(line.number),
        SourceChange::Reflow(line) => Some(line),
        SourceChange::Replace { before, after, line_endings } => if after@.len() > 0 {
            Some(after@.last().number)
        } else {
            None
        },
        SourceChange::LineEnding(ending) => None,
        SourceChange::Move(block) => if block.after.start < block.after.end {
            Some((block.after.end - 1) as usize)
        } else {
            None
        },
        SourceChange::Compact(compact) => compact.after_line,
        SourceChange::Elision(coverage) => None,
    }
}

/// The change displays a current line.
pub open spec fn shows_current(change: SourceChange, line: int) -> bool {
    match change {
        SourceChange::Context(shown) => shown == line,
        SourceChange::Edited(edit) => edit.number == line,
        SourceChange::Reflow(shown) => shown == line,
        SourceChange::Replace { before, after, line_endings } => exists|k: int|
            0 <= k < after@.len() && (#[trigger] after@[k]).number == line,
        SourceChange::LineEnding(ending) => false,
        SourceChange::Move(block) => block.after.start <= line < block.after.end,
        SourceChange::Compact(compact) => compact.after_line matches Some(shown) && shown == line,
        SourceChange::Elision(coverage) => false,
    }
}

/// The change displays an old line or stands for it.
pub open spec fn names_old(change: SourceChange, line: int) -> bool {
    match change {
        SourceChange::Replace { before, after, line_endings } => exists|k: int|
            0 <= k < before@.len() && (#[trigger] before@[k]).number == line,
        SourceChange::Move(block) => block.before.start <= line < block.before.end,
        SourceChange::Compact(compact) => compact.before_line matches Some(shown) && shown == line,
        SourceChange::Elision(coverage) => coverage.before matches Some(lines) && lines.start
            <= line < lines.end,
        _ => false,
    }
}

/// The change stands for a current line that it does not display.
pub open spec fn folds_current(change: SourceChange, line: int) -> bool {
    change matches SourceChange::Elision(coverage) && coverage.after matches Some(lines)
        && lines.start <= line < lines.end
}

/// Lines of a replacement stand in source order.
pub open spec fn replaces_in_order(change: SourceChange) -> bool {
    change matches SourceChange::Replace { before, after, line_endings } ==> {
        &&& forall|i: int, j: int|
            0 <= i < j < before@.len() ==> (#[trigger] before@[i]).number < (
            #[trigger] before@[j]).number
        &&& forall|i: int, j: int|
            0 <= i < j < after@.len() ==> (#[trigger] after@[i]).number < (
            #[trigger] after@[j]).number
    }
}

/// A change starts at the least line that it displays or stands for, in either revision, and ends
/// at the greatest current line that it displays; it has such a line if it names any.
pub proof fn law_changes_start_and_end_at_their_lines(
    change: SourceChange,
    before_count: int,
    after_count: int,
    line: int,
)
    requires
        change_fits(change, before_count, after_count),
        replaces_in_order(change),
        shows_current(change, line) || folds_current(change, line) || names_old(change, line),
    ensures
        shows_current(change, line) || folds_current(change, line) ==> (after_line_of(
            change,
        ) matches Some(first) && first <= line && (shows_current(change, first as int)
            || folds_current(change, first as int))),
        shows_current(change, line) ==> (last_displayed(change) matches Some(last) && line <= last
            && shows_current(change, last as int)),
        folds_current(change, line) ==> last_displayed(change) is None,
        names_old(change, line) ==> (before_line_of(change) matches Some(first)
            && first <= line && names_old(change, first as int)),
{
    if let SourceChange::Replace { before, after, line_endings } = change {
        if after@.len() > 0 {
            assert(after@[0].number == after@[0].number);
            assert(after@[after@.len() - 1].number == after@.last().number);
        }
        if before@.len() > 0 {
            assert(before@[0].number == before@[0].number);
        }
    }
}

impl SourceChange {
    /// First current line of the change.
    pub fn after_line(&self) -> (line: Option<usize>)
        ensures
            line == after_line_of(*self),
    {
        match self {
            SourceChange::Context(line) => Some(*line),
            SourceChange::Edited(line) => Some(line.number),
            SourceChange::Reflow(line) => Some(*line),
            SourceChange::Replace { before: _, after, line_endings: _ } => if after.len() > 0 {
                Some(after[0].number)
            } else {
                None
            },
            SourceChange::LineEnding(_) => None,
            SourceChange::Move(block) => Some(block.after.start),
            SourceChange::Compact(compact) => compact.after_line,
            SourceChange::Elision(coverage) => match coverage.after {
                Some(lines) => Some(lines.start),
                None => None,
            },
        }
    }

    /// First old line of the change.
    pub fn before_line(&self) -> (line: Option<usize>)
        ensures
            line == before_line_of(*self),
    {
        match self {
            SourceChange::Replace { before, after: _, line_endings: _ } => if before.len() > 0 {
                Some(before[0].number)
            } else {
                None
            },
            SourceChange::Move(block) => Some(block.before.start),
            SourceChange::Compact(compact) => compact.before_line,
            SourceChange::Elision(coverage) => match coverage.before {
                Some(lines) => Some(lines.start),
                None => None,
            },
            _ => None,
        }
    }

    /// Whether the change is an unchanged current line.
    pub fn is_context(&self) -> (result: bool)
        ensures
            result == (self is Context),
    {
        matches!(self, SourceChange::Context(_))
    }

    /// Last current line that the change displays.
    pub fn last_displayed_after(&self) -> (line: Option<usize>)
        ensures
            line == last_displayed(*self),
    {
        match self {
            SourceChange::Context(line) => Some(*line),
            SourceChange::Edited(line) => Some(line.number),
            SourceChange::Reflow(line) => Some(*line),
            SourceChange::Replace { before: _, after, line_endings: _ } => if after.len() > 0 {
                Some(after[after.len() - 1].number)
            } else {
                None
            },
            SourceChange::LineEnding(_) => None,
            SourceChange::Move(block) => if block.after.start < block.after.end {
                Some(block.after.end - 1)
            } else {
                None
            },
            SourceChange::Compact(compact) => compact.after_line,
            SourceChange::Elision(_) => None,
        }
    }
}

} // verus!

//! Replacements and other rows in source coordinates.

use crate::correspondence::geometry::spans_overlap;
use crate::plan::scene::{horizontal_layout, is_horizontal, PlanScene};
use crate::review::{
    change_fits, edits_exist, is_line, LineCoverage, LineEndingChange, LineEndpoint, SourceChange,
    SourceEdit,
};
use crate::context::{include_range, included};
use crate::source::{LineEnding, Source};
use crate::plan::anchored::reversed;
use crate::span::Span;
use vstd::prelude::*;

verus! {

/// The edits name consecutive lines, the first one behind row `start`.
pub open spec fn numbers_rows(edits: Seq<SourceEdit>, rows: Span) -> bool {
    &&& edits.len() == if rows.start <= rows.end {
        rows.end - rows.start
    } else {
        0
    }
    &&& forall|k: int| 0 <= k < edits.len() ==> (#[trigger] edits[k]).number == rows.start + k + 1
}

/// The change replaces exactly these old rows by exactly these current rows.
pub open spec fn is_replacement(change: SourceChange, before: Span, after: Span) -> bool {
    change matches SourceChange::Replace { before: removed, after: added, line_endings } && (
    numbers_rows(removed@, before) && numbers_rows(added@, after))
}

/// The longest common beginning and end of two byte ranges, cut back to whole characters.
pub open spec fn is_affix(
    left: Seq<u8>,
    right: Seq<u8>,
    prefix: int,
    suffix: int,
) -> bool {
    &&& 0 <= prefix
    &&& 0 <= suffix
    &&& prefix + suffix <= left.len()
    &&& prefix + suffix <= right.len()
    &&& left.take(prefix) == right.take(prefix)
    &&& left.skip(left.len() - suffix) == right.skip(right.len() - suffix)
}

/// A byte that continues a character.
pub open spec fn continues(byte: u8) -> bool {
    0x80 <= byte < 0xc0
}

/// Common affixes of two byte ranges.
fn common_affixes(left: &[u8], left_span: Span, right: &[u8], right_span: Span) -> (affixes: (
    usize,
    usize,
))
    requires
        left_span.start <= left_span.end <= left@.len(),
        right_span.start <= right_span.end <= right@.len(),
    ensures
        is_affix(
            left@.subrange(left_span.start as int, left_span.end as int),
            right@.subrange(right_span.start as int, right_span.end as int),
            affixes.0 as int,
            affixes.1 as int,
        ),
{
    let left_len = left_span.end - left_span.start;
    let right_len = right_span.end - right_span.start;
    let mut prefix: usize = 0;
    while prefix < left_len && prefix < right_len && left[left_span.start + prefix]
        == right[right_span.start + prefix]
        invariant
            left_span.start <= left_span.end <= left@.len(),
            right_span.start <= right_span.end <= right@.len(),
            left_len == left_span.end - left_span.start,
            right_len == right_span.end - right_span.start,
            prefix <= left_len,
            prefix <= right_len,
            forall|k: int|
                0 <= k < prefix ==> left@[#[trigger] (left_span.start + k)]
                    == right@[right_span.start + k],
        decreases left_len - prefix,
    {
        prefix += 1;
    }
    while prefix > 0 && ((prefix < left_len && splits(left[left_span.start + prefix])) || (prefix
        < right_len && splits(right[right_span.start + prefix])))
        invariant
            left_span.start <= left_span.end <= left@.len(),
            right_span.start <= right_span.end <= right@.len(),
            left_len == left_span.end - left_span.start,
            right_len == right_span.end - right_span.start,
            prefix <= left_len,
            prefix <= right_len,
            forall|k: int|
                0 <= k < prefix ==> left@[#[trigger] (left_span.start + k)]
                    == right@[right_span.start + k],
        decreases prefix,
    {
        prefix -= 1;
    }
    let mut suffix: usize = 0;
    while suffix < left_len - prefix && suffix < right_len - prefix && left[left_span.end - 1
        - suffix] == right[right_span.end - 1 - suffix]
        invariant
            left_span.start <= left_span.end <= left@.len(),
            right_span.start <= right_span.end <= right@.len(),
            left_len == left_span.end - left_span.start,
            right_len == right_span.end - right_span.start,
            prefix + suffix <= left_len,
            prefix + suffix <= right_len,
            forall|k: int|
                0 <= k < suffix ==> left@[#[trigger] (left_span.end - 1 - k)]
                    == right@[right_span.end - 1 - k],
        decreases left_len - suffix,
    {
        suffix += 1;
    }
    while suffix > 0 && splits(left[left_span.end - suffix])
        invariant
            left_span.start <= left_span.end <= left@.len(),
            right_span.start <= right_span.end <= right@.len(),
            left_len == left_span.end - left_span.start,
            right_len == right_span.end - right_span.start,
            prefix + suffix <= left_len,
            prefix + suffix <= right_len,
            forall|k: int|
                0 <= k < suffix ==> left@[#[trigger] (left_span.end - 1 - k)]
                    == right@[right_span.end - 1 - k],
        decreases suffix,
    {
        suffix -= 1;
    }
    proof {
        let first = left@.subrange(left_span.start as int, left_span.end as int);
        let second = right@.subrange(right_span.start as int, right_span.end as int);
        assert forall|k: int| 0 <= k < prefix implies first.take(prefix as int)[k]
            == second.take(prefix as int)[k] by {
            assert(first[k] == left@[left_span.start + k]);
        }
        assert(first.take(prefix as int) =~= second.take(prefix as int));
        let left_end = first.skip(first.len() - suffix);
        let right_end = second.skip(second.len() - suffix);
        assert forall|k: int| 0 <= k < suffix implies left_end[k] == right_end[k] by {
            let back = suffix - 1 - k;
            assert(left_end[k] == left@[left_span.end - 1 - back]);
            assert(right_end[k] == right@[right_span.end - 1 - back]);
        }
        assert(left_end =~= right_end);
    }
    (prefix, suffix)
}

/// Whether a boundary before the byte would split a character.
fn splits(byte: u8) -> (result: bool)
    ensures
        result == continues(byte),
{
    0x80 <= byte && byte < 0xc0
}

/// One range, or nothing where it is empty.
fn nonempty(span: Span) -> (spans: Vec<Span>)
    ensures
        spans@ == if span.empty() {
            Seq::<Span>::empty()
        } else {
            seq![span]
        },
{
    let mut spans: Vec<Span> = Vec::new();
    if !span.is_empty() {
        spans.push(span);
    }
    assert(spans@ =~= if span.empty() {
        Seq::<Span>::empty()
    } else {
        seq![span]
    });
    spans
}

/// The whole content of a line is marked, if it has any.
pub open spec fn marks_whole(source: Source, edit: SourceEdit) -> bool {
    let content = source.line_seq()[edit.number - 1].content_bytes;
    edit.changed_bytes@ == if content.empty() {
        Seq::<Span>::empty()
    } else {
        seq![content]
    }
}

/// Lines that have no counterpart, marked whole.
fn whole_edits(source: &Source, rows: Span) -> (edits: Vec<SourceEdit>)
    requires
        source.wf(),
        rows.start <= rows.end <= source.line_seq().len(),
    ensures
        numbers_rows(edits@, rows),
        forall|k: int| 0 <= k < edits@.len() ==> marks_whole(*source, #[trigger] edits@[k]),
{
    proof {
        source.lemma_line_count();
    }
    let mut edits: Vec<SourceEdit> = Vec::new();
    let mut row = rows.start;
    while row < rows.end
        invariant
            rows.start <= row <= rows.end <= source.line_seq().len() < usize::MAX,
            edits@.len() == row - rows.start,
            forall|k: int|
                0 <= k < edits@.len() ==> (#[trigger] edits@[k]).number == rows.start + k + 1,
            forall|k: int| 0 <= k < edits@.len() ==> marks_whole(*source, #[trigger] edits@[k]),
        decreases rows.end - row,
    {
        let line = source.lines()[row];
        edits.push(SourceEdit { number: row + 1, changed_bytes: nonempty(line.content_bytes) });
        row += 1;
    }
    edits
}

/// Rows of a side that lack a terminator.
fn push_missing(endings: &mut Vec<LineEndingChange>, source: &Source, rows: Span, removed: bool)
    requires
        source.wf(),
        rows.start <= rows.end <= source.line_seq().len(),
    ensures
        old(endings)@.is_prefix_of(final(endings)@),
        forall|k: int|
            old(endings)@.len() <= k < final(endings)@.len() ==> one_sided_missing(
                #[trigger] final(endings)@[k],
                removed,
            ),
        forall|row: int|
            rows.has(row) && (#[trigger] source.line_seq()[row]).ending == LineEnding::Missing
                ==> final(endings)@.contains(missing_at((row + 1) as usize, removed)),
{
    proof {
        source.lemma_line_count();
    }
    let mut row = rows.start;
    while row < rows.end
        invariant
            rows.start <= row <= rows.end <= source.line_seq().len() < usize::MAX,
            old(endings)@.is_prefix_of(endings@),
            forall|k: int|
                old(endings)@.len() <= k < endings@.len() ==> one_sided_missing(
                    #[trigger] endings@[k],
                    removed,
                ),
            forall|other: int|
                rows.start <= other < row && (#[trigger] source.line_seq()[other]).ending
                    == LineEnding::Missing ==> endings@.contains(
                    missing_at((other + 1) as usize, removed),
                ),
        decreases rows.end - row,
    {
        let ghost earlier = endings@;
        let line = source.lines()[row];
        if matches!(line.ending, LineEnding::Missing) {
            let endpoint = Some(LineEndpoint { line: row + 1, ending: LineEnding::Missing });
            endings.push(
                if removed {
                    LineEndingChange { before: endpoint, after: None }
                } else {
                    LineEndingChange { before: None, after: endpoint }
                },
            );
            assert(endings@[earlier.len() as int] == missing_at((row + 1) as usize, removed));
        }
        proof {
            assert forall|other: int|
                rows.start <= other < row + 1 && (#[trigger] source.line_seq()[other]).ending
                    == LineEnding::Missing implies endings@.contains(
                missing_at((other + 1) as usize, removed),
            ) by {
                if other < row {
                    let change = missing_at((other + 1) as usize, removed);
                    let k = choose|k: int| 0 <= k < earlier.len() && earlier[k] == change;
                    assert(endings@[k] == change);
                }
            }
        }
        row += 1;
    }
}

/// A missing terminator of one revision.
pub open spec fn missing_at(line: usize, removed: bool) -> LineEndingChange {
    let endpoint = Some(LineEndpoint { line, ending: LineEnding::Missing });
    if removed {
        LineEndingChange { before: endpoint, after: None }
    } else {
        LineEndingChange { before: None, after: endpoint }
    }
}

pub open spec fn one_sided_missing(change: LineEndingChange, removed: bool) -> bool {
    exists|line: usize| change == #[trigger] missing_at(line, removed)
}

/// Marks of a replacement: a single pair keeps its common affixes, anything else is marked whole.
pub open spec fn marks_replacement(
    old_source: Source,
    new_source: Source,
    change: SourceChange,
    before: Span,
    after: Span,
) -> bool {
    change matches SourceChange::Replace { before: removed, after: added, line_endings } && (
    if before.end - before.start == 1 && after.end - after.start == 1 {
        marks_pair(old_source, new_source, removed@[0], added@[0])
    } else {
        (forall|k: int|
            0 <= k < removed@.len() ==> marks_whole(old_source, #[trigger] removed@[k])) && (
        forall|k: int|
            0 <= k < added@.len() ==> marks_whole(new_source, #[trigger] added@[k]))
    })
}

/// What lies between the marks of two paired lines and their ends is equal.
pub open spec fn marks_pair(
    old_source: Source,
    new_source: Source,
    removed: SourceEdit,
    added: SourceEdit,
) -> bool {
    let left = old_source.line_seq()[removed.number - 1].content_bytes;
    let right = new_source.line_seq()[added.number - 1].content_bytes;
    exists|prefix: int, suffix: int|
        #[trigger] is_affix(
            old_source.data().subrange(left.start as int, left.end as int),
            new_source.data().subrange(right.start as int, right.end as int),
            prefix,
            suffix,
        ) && marks_between(removed.changed_bytes@, left.start + prefix, left.end - suffix)
            && marks_between(added.changed_bytes@, right.start + prefix, right.end - suffix)
}

/// Exactly the bytes from `start` to `end` are marked.
pub open spec fn marks_between(marks: Seq<Span>, start: int, end: int) -> bool {
    if start >= end {
        marks.len() == 0
    } else {
        marks.len() == 1 && marks[0].start == start && marks[0].end == end
    }
}

/// Terminator changes of a replacement: of a single pair its own, otherwise every missing one.
pub open spec fn endings_replacement(
    old_source: Source,
    new_source: Source,
    change: SourceChange,
    before: Span,
    after: Span,
) -> bool {
    let old_lines = old_source.line_seq();
    let new_lines = new_source.line_seq();
    change matches SourceChange::Replace { before: removed, after: added, line_endings } && (
    if before.end - before.start == 1 && after.end - after.start == 1 {
        line_endings@ == if old_lines[before.start as int].ending
            == new_lines[after.start as int].ending {
            Seq::<LineEndingChange>::empty()
        } else {
            seq![
                LineEndingChange {
                    before: Some(
                        LineEndpoint {
                            line: (before.start + 1) as usize,
                            ending: old_lines[before.start as int].ending,
                        },
                    ),
                    after: Some(
                        LineEndpoint {
                            line: (after.start + 1) as usize,
                            ending: new_lines[after.start as int].ending,
                        },
                    ),
                },
            ]
        }
    } else {
        &&& forall|k: int|
            0 <= k < line_endings@.len() ==> one_sided_missing(#[trigger] line_endings@[k], true)
                || one_sided_missing(line_endings@[k], false)
        &&& forall|row: int|
            before.has(row) && (#[trigger] old_lines[row]).ending == LineEnding::Missing
                ==> line_endings@.contains(missing_at((row + 1) as usize, true))
        &&& forall|row: int|
            after.has(row) && (#[trigger] new_lines[row]).ending == LineEnding::Missing
                ==> line_endings@.contains(missing_at((row + 1) as usize, false))
    })
}

/// What a replacement must hold.
pub open spec fn replaces(
    old_source: Source,
    new_source: Source,
    change: SourceChange,
    before: Span,
    after: Span,
) -> bool {
    &&& is_replacement(change, before, after)
    &&& marks_replacement(old_source, new_source, change, before, after)
    &&& endings_replacement(old_source, new_source, change, before, after)
}

/// Replace one line by one line.
fn replace_pair(old_source: &Source, new_source: &Source, before: usize, after: usize) -> (change:
    SourceChange)
    requires
        old_source.wf(),
        new_source.wf(),
        before < old_source.line_seq().len(),
        after < new_source.line_seq().len(),
    ensures
        replaces(
            *old_source,
            *new_source,
            change,
            Span { start: before, end: (before + 1) as usize },
            Span { start: after, end: (after + 1) as usize },
        ),
{
    proof {
        old_source.lemma_line_count();
        new_source.lemma_line_count();
    }
    let old_line = old_source.lines()[before];
    let new_line = new_source.lines()[after];
    proof {
        assert(crate::source::is_line_of(old_source.data(), old_line));
        assert(crate::source::is_line_of(new_source.data(), new_line));
    }
    let (prefix, suffix) = common_affixes(
        old_source.as_bytes(),
        old_line.content_bytes,
        new_source.as_bytes(),
        new_line.content_bytes,
    );
    let old_marks = nonempty(
        Span {
            start: old_line.content_bytes.start + prefix,
            end: old_line.content_bytes.end - suffix,
        },
    );
    let new_marks = nonempty(
        Span {
            start: new_line.content_bytes.start + prefix,
            end: new_line.content_bytes.end - suffix,
        },
    );
    let mut removed: Vec<SourceEdit> = Vec::new();
    removed.push(SourceEdit { number: before + 1, changed_bytes: old_marks });
    let mut added: Vec<SourceEdit> = Vec::new();
    added.push(SourceEdit { number: after + 1, changed_bytes: new_marks });
    let mut line_endings: Vec<LineEndingChange> = Vec::new();
    if old_line.ending != new_line.ending {
        line_endings.push(
            LineEndingChange {
                before: Some(LineEndpoint { line: before + 1, ending: old_line.ending }),
                after: Some(LineEndpoint { line: after + 1, ending: new_line.ending }),
            },
        );
    }
    proof {
        assert(marks_between(
            old_marks@,
            old_line.content_bytes.start + prefix,
            old_line.content_bytes.end - suffix,
        ));
        assert(marks_between(
            new_marks@,
            new_line.content_bytes.start + prefix,
            new_line.content_bytes.end - suffix,
        ));
        assert(marks_pair(*old_source, *new_source, removed@[0], added@[0]));
    }
    SourceChange::Replace { before: removed, after: added, line_endings }
}

/// Replace a run of lines by another run.
fn replace_run(old_source: &Source, new_source: &Source, before: Span, after: Span) -> (change:
    SourceChange)
    requires
        old_source.wf(),
        new_source.wf(),
        before.start <= before.end <= old_source.line_seq().len(),
        after.start <= after.end <= new_source.line_seq().len(),
        !(before.end - before.start == 1 && after.end - after.start == 1),
    ensures
        replaces(*old_source, *new_source, change, before, after),
{
    let removed = whole_edits(old_source, before);
    let added = whole_edits(new_source, after);
    let mut line_endings: Vec<LineEndingChange> = Vec::new();
    push_missing(&mut line_endings, old_source, before, true);
    let ghost earlier = line_endings@;
    push_missing(&mut line_endings, new_source, after, false);
    proof {
        assert forall|row: int|
            before.has(row) && (#[trigger] old_source.line_seq()[row]).ending
                == LineEnding::Missing implies line_endings@.contains(
            missing_at((row + 1) as usize, true),
        ) by {
            let change = missing_at((row + 1) as usize, true);
            let k = choose|k: int| 0 <= k < earlier.len() && earlier[k] == change;
            assert(line_endings@[k] == change);
        }
        assert forall|k: int| 0 <= k < line_endings@.len() implies one_sided_missing(
            #[trigger] line_endings@[k],
            true,
        ) || one_sided_missing(line_endings@[k], false) by {
            if k < earlier.len() {
                assert(line_endings@[k] == earlier[k]);
            }
        }
    }
    SourceChange::Replace { before: removed, after: added, line_endings }
}

/// Replace old rows by current rows.
///
/// A single pair keeps what both lines share. A larger gap has no line-level correspondence, so
/// each revision stays one coherent run.
pub fn replacement(scene: &PlanScene<'_>, before: Span, after: Span) -> (change: SourceChange)
    requires
        scene.wf(),
        before.start <= before.end <= scene.before_count(),
        after.start <= after.end <= scene.after_count(),
        before.start < before.end || after.start < after.end,
    ensures
        replaces(scene.pair.before.source, scene.pair.after.source, change, before, after),
        change_fits(change, scene.before_count(), scene.after_count()),
{
    if before.len() == 1 && after.len() == 1 {
        return replace_pair(
            &scene.pair.before.source,
            &scene.pair.after.source,
            before.start,
            after.start,
        );
    }
    replace_run(&scene.pair.before.source, &scene.pair.after.source, before, after)
}

/// One physical replacement row: a one-based line of either revision, or of both.
#[derive(Clone, Copy, Debug, PartialEq, Eq, Structural)]
pub struct LineEdit {
    pub before: Option<usize>,
    pub after: Option<usize>,
}

/// Zero-based rows of one side of a line edit.
pub open spec fn side_rows(line: Option<usize>) -> Span {
    match line {
        Some(line) => Span { start: (line - 1) as usize, end: line },
        None => Span { start: 0, end: 0 },
    }
}

impl LineEdit {
    /// Some line is named, and named lines exist.
    pub open spec fn fits(self, before_count: int, after_count: int) -> bool {
        &&& self.before matches Some(line) ==> is_line(line, before_count)
        &&& self.after matches Some(line) ==> is_line(line, after_count)
        &&& self.before is Some || self.after is Some
    }

    /// Line by which edits are ordered: the current one, or else the old one.
    pub open spec fn place(self) -> usize {
        match (self.after, self.before) {
            (Some(line), _) => line,
            (None, Some(line)) => line,
            (None, None) => 0,
        }
    }

    pub fn order(&self) -> (line: usize)
        ensures
            line == self.place(),
    {
        match (self.after, self.before) {
            (Some(line), _) => line,
            (None, Some(line)) => line,
            (None, None) => 0,
        }
    }
}

/// Zero-based rows of one side.
fn rows_of_side(line: Option<usize>) -> (rows: Span)
    requires
        line matches Some(line) ==> line > 0,
    ensures
        rows == side_rows(line),
{
    match line {
        Some(line) => Span { start: line - 1, end: line },
        None => Span { start: 0, end: 0 },
    }
}

/// Row of a unit before rows are selected.
#[derive(Clone, Copy, Debug, PartialEq, Eq, Structural)]
pub enum UnitRow {
    Context(usize),
    /// Current line with marked leaves.
    Marked(usize),
    Reflow(usize),
    Edit(LineEdit),
}

impl UnitRow {
    pub open spec fn fits(self, before_count: int, after_count: int) -> bool {
        match self {
            UnitRow::Context(line) => is_line(line, after_count),
            UnitRow::Marked(line) => is_line(line, after_count),
            UnitRow::Reflow(line) => is_line(line, after_count),
            UnitRow::Edit(edit) => edit.fits(before_count, after_count),
        }
    }

    /// Current line of the row.
    pub open spec fn after_line_of(self) -> Option<usize> {
        match self {
            UnitRow::Context(line) => Some(line),
            UnitRow::Marked(line) => Some(line),
            UnitRow::Reflow(line) => Some(line),
            UnitRow::Edit(edit) => edit.after,
        }
    }

    pub fn after_line(&self) -> (line: Option<usize>)
        ensures
            line == self.after_line_of(),
    {
        match *self {
            UnitRow::Context(line) => Some(line),
            UnitRow::Marked(line) => Some(line),
            UnitRow::Reflow(line) => Some(line),
            UnitRow::Edit(edit) => edit.after,
        }
    }

    /// Old line of the row.
    pub fn before_line(&self) -> (line: Option<usize>)
        ensures
            line == (match *self {
                UnitRow::Edit(edit) => edit.before,
                _ => None,
            }),
    {
        match *self {
            UnitRow::Edit(edit) => edit.before,
            _ => None,
        }
    }

    pub fn is_context(&self) -> (result: bool)
        ensures
            result == (self is Context),
    {
        matches!(self, UnitRow::Context(_))
    }
}

/// The change shows the row.
pub open spec fn shows_row(change: SourceChange, row: UnitRow) -> bool {
    match row {
        UnitRow::Context(line) => change == SourceChange::Context(line),
        UnitRow::Marked(line) => change matches SourceChange::Edited(edit) && edit.number == line,
        UnitRow::Reflow(line) => change == SourceChange::Reflow(line),
        UnitRow::Edit(edit) => is_replacement(
            change,
            side_rows(edit.before),
            side_rows(edit.after),
        ),
    }
}

/// Marks that touch a line, in order.
pub open spec fn touching_marks(content: Span, marks: Seq<Span>) -> Seq<Span> {
    marks.filter(|mark: Span| crate::correspondence::geometry::spans_meet(mark, content))
}

/// Marks that touch a line.
fn marks_of_line(content: Span, marks: &Vec<Span>) -> (touching: Vec<Span>)
    ensures
        touching@ == touching_marks(content, marks@),
{
    let ghost touches = |mark: Span| crate::correspondence::geometry::spans_meet(mark, content);
    let mut touching: Vec<Span> = Vec::new();
    let mut index: usize = 0;
    proof {
        reveal(Seq::filter);
        assert(marks@.take(0).filter(touches) =~= Seq::<Span>::empty());
    }
    while index < marks.len()
        invariant
            touches == (|mark: Span| crate::correspondence::geometry::spans_meet(mark, content)),
            index <= marks@.len(),
            touching@ == marks@.take(index as int).filter(touches),
        decreases marks@.len() - index,
    {
        let mark = marks[index];
        proof {
            assert(marks@.take(index + 1) =~= marks@.take(index as int).push(mark));
            marks@.take(index as int).lemma_filter_push(mark, touches);
        }
        if spans_overlap(mark, content) {
            touching.push(mark);
        }
        index += 1;
    }
    assert(marks@.take(index as int) =~= marks@);
    touching
}

/// Some mark holds the byte.
pub open spec fn in_marks(marks: Seq<Span>, byte: int) -> bool {
    exists|k: int| 0 <= k < marks.len() && (#[trigger] marks[k]).has(byte)
}

/// Marks joined over spaces and tabs: no marked byte is lost, and no other byte is added.
pub open spec fn is_joining(data: Seq<u8>, marks: Seq<Span>, joined: Seq<Span>) -> bool {
    &&& forall|byte: int| in_marks(marks, byte) ==> #[trigger] in_marks(joined, byte)
    &&& forall|byte: int| #[trigger]
        in_marks(joined, byte) ==> in_marks(marks, byte) || (0 <= byte < data.len() && (data[byte]
            == 32 || data[byte] == 9))
}

/// Join marks that only spaces or tabs part.
fn join_marks(data: &[u8], marks: Vec<Span>) -> (joined: Vec<Span>)
    ensures
        is_joining(data@, marks@, joined@),
{
    let mut joined: Vec<Span> = Vec::new();
    let mut index: usize = 0;
    while index < marks.len()
        invariant
            index <= marks@.len(),
            forall|byte: int|
                in_marks(marks@.take(index as int), byte) ==> #[trigger] in_marks(joined@, byte),
            forall|byte: int| #[trigger]
                in_marks(joined@, byte) ==> in_marks(marks@, byte) || (0 <= byte < data@.len() && (
                data@[byte] == 32 || data@[byte] == 9)),
        decreases marks@.len() - index,
    {
        let mark = marks[index];
        let ghost earlier = joined@;
        let mut start = mark.start;
        if joined.len() > 0 {
            let last = joined[joined.len() - 1];
            if last.start <= last.end && last.end <= mark.start && mark.start <= mark.end
                && mark.start <= data.len() && horizontal_layout(
                data,
                last.end,
                mark.start,
            ) {
                joined.pop();
                start = last.start;
                assert(earlier =~= joined@.push(last));
                assert(last.end <= mark.start);
            }
        }
        let ghost kept = joined@;
        joined.push(Span { start, end: mark.end });
        proof {
            let added = Span { start, end: mark.end };
            assert forall|byte: int| #[trigger] in_marks(joined@, byte) implies in_marks(
                marks@,
                byte,
            ) || (0 <= byte < data@.len() && (data@[byte] == 32 || data@[byte] == 9)) by {
                let k = choose|k: int| 0 <= k < joined@.len() && (#[trigger] joined@[k]).has(byte);
                if k < kept.len() {
                    assert(earlier[k].has(byte));
                    assert(in_marks(earlier, byte));
                } else if mark.has(byte) {
                    assert(marks@[index as int].has(byte));
                } else {
                    let last = earlier[earlier.len() - 1];
                    if last.has(byte) {
                        assert(in_marks(earlier, byte));
                    } else {
                        let gap = data@.subrange(last.end as int, mark.start as int);
                        assert(is_horizontal(gap));
                        assert(gap[byte - last.end] == data@[byte]);
                    }
                }
            }
            assert forall|byte: int| in_marks(
                marks@.take(index + 1),
                byte,
            ) implies #[trigger] in_marks(joined@, byte) by {
                let k = choose|k: int|
                    0 <= k < index + 1 && (#[trigger] marks@.take(index + 1)[k]).has(byte);
                if k < index {
                    assert(marks@.take(index as int)[k].has(byte));
                    assert(in_marks(earlier, byte));
                    let at = choose|at: int|
                        0 <= at < earlier.len() && (#[trigger] earlier[at]).has(byte);
                    if at < kept.len() {
                        assert(joined@[at] == earlier[at]);
                    } else {
                        assert(joined@[kept.len() as int].has(byte));
                    }
                } else {
                    assert(joined@[kept.len() as int].has(byte));
                }
            }
        }
        index += 1;
    }
    assert(marks@.take(index as int) =~= marks@);
    joined
}

/// Leaves that rows mark.
pub struct RowMarks {
    /// Changed leaves of current lines that stay in place.
    pub current: Vec<Span>,
    /// Old leaves that an edit marks instead of what its two lines do not share.
    pub removed: Vec<Span>,
    /// Current leaves that an edit marks instead of what its two lines do not share.
    pub added: Vec<Span>,
}

impl RowMarks {
    pub fn nothing() -> (marks: RowMarks)
        ensures
            marks.current@.len() == 0,
            marks.removed@.len() == 0,
            marks.added@.len() == 0,
    {
        RowMarks { current: Vec::new(), removed: Vec::new(), added: Vec::new() }
    }
}

/// The edit of the same line is marked at the leaves that touch the line; where none does, it is
/// the plain one.
pub open spec fn draws_edit(
    source: Source,
    plain: SourceEdit,
    drawn: SourceEdit,
    leaves: Seq<Span>,
) -> bool {
    let touching = touching_marks(source.line_seq()[plain.number - 1].content_bytes, leaves);
    &&& drawn.number == plain.number
    &&& if touching.len() == 0 {
        drawn == plain
    } else {
        is_joining(source.data(), touching, drawn.changed_bytes@)
    }
}

/// The edits of the same lines, each marked at the leaves that touch its line.
pub open spec fn draws_edits(
    source: Source,
    plain: Seq<SourceEdit>,
    drawn: Seq<SourceEdit>,
    leaves: Seq<Span>,
) -> bool {
    &&& drawn.len() == plain.len()
    &&& forall|k: int|
        0 <= k < drawn.len() ==> draws_edit(source, plain[k], #[trigger] drawn[k], leaves)
}

/// The change is a replacement of the two sides whose edits are marked at leaves: removed leaves
/// in the old lines, added leaves in the current ones.
pub open spec fn draws_replacement(
    scene: PlanScene<'_>,
    change: SourceChange,
    plain: SourceChange,
    before: Span,
    after: Span,
    marks: RowMarks,
) -> bool {
    &&& replaces(scene.pair.before.source, scene.pair.after.source, plain, before, after)
    &&& plain matches SourceChange::Replace { before: old_plain, after: new_plain, line_endings: kept }
        && change matches SourceChange::Replace { before: removed, after: added, line_endings }
        && line_endings == kept && draws_edits(
        scene.pair.before.source,
        old_plain@,
        removed@,
        marks.removed@,
    ) && draws_edits(scene.pair.after.source, new_plain@, added@, marks.added@)
}

/// The change is what becomes of the row under the marks.
pub open spec fn draws_row(
    scene: PlanScene<'_>,
    change: SourceChange,
    row: UnitRow,
    marks: RowMarks,
) -> bool {
    let source = scene.pair.after.source;
    match row {
        UnitRow::Context(line) => change == SourceChange::Context(line),
        UnitRow::Reflow(line) => change == SourceChange::Reflow(line),
        UnitRow::Marked(line) => change matches SourceChange::Edited(edit) && edit.number == line
            && is_joining(
            source.data(),
            touching_marks(source.line_seq()[line - 1].content_bytes, marks.current@),
            edit.changed_bytes@,
        ),
        UnitRow::Edit(edit) => exists|plain: SourceChange| #[trigger]
            draws_replacement(
                scene,
                change,
                plain,
                side_rows(edit.before),
                side_rows(edit.after),
                marks,
            ),
    }
}

/// The edits of the same lines, marked at leaves where leaves are given.
fn marked_edits(source: &Source, edits: Vec<SourceEdit>, leaves: &Vec<Span>) -> (marked: Vec<
    SourceEdit,
>)
    requires
        source.wf(),
        edits_exist(edits@, source.line_seq().len() as int),
    ensures
        draws_edits(*source, edits@, marked@, leaves@),
{
    if leaves.len() == 0 {
        proof {
            reveal(Seq::filter);
        }
        return edits;
    }
    let ghost listed = edits@;
    let mut pending = reversed(edits);
    let mut marked: Vec<SourceEdit> = Vec::new();
    while pending.len() > 0
        invariant
            source.wf(),
            edits_exist(listed, source.line_seq().len() as int),
            pending@.len() + marked@.len() == listed.len(),
            forall|k: int|
                0 <= k < pending@.len() ==> (#[trigger] pending@[k]) == listed[listed.len() - 1
                    - k],
            forall|k: int|
                0 <= k < marked@.len() ==> draws_edit(
                    *source,
                    listed[k],
                    #[trigger] marked@[k],
                    leaves@,
                ),
        decreases pending@.len(),
    {
        let ghost at = marked@.len() as int;
        let edit = pending.pop().unwrap();
        assert(edit == listed[at]);
        let content = source.lines()[edit.number - 1].content_bytes;
        let touching = marks_of_line(content, leaves);
        if touching.len() == 0 {
            marked.push(edit);
        } else {
            let changed_bytes = join_marks(source.as_bytes(), touching);
            marked.push(SourceEdit { number: edit.number, changed_bytes });
        }
    }
    marked
}

/// Turn a row into a change.
pub fn row_change(scene: &PlanScene<'_>, row: UnitRow, marks: &RowMarks) -> (change: SourceChange)
    requires
        scene.wf(),
        row.fits(scene.before_count(), scene.after_count()),
    ensures
        shows_row(change, row),
        draws_row(*scene, change, row, *marks),
        change_fits(change, scene.before_count(), scene.after_count()),
{
    match row {
        UnitRow::Context(line) => SourceChange::Context(line),
        UnitRow::Reflow(line) => SourceChange::Reflow(line),
        UnitRow::Marked(line) => {
            let source = &scene.pair.after.source;
            let content = source.lines()[line - 1].content_bytes;
            let touching = marks_of_line(content, &marks.current);
            let changed_bytes = join_marks(source.as_bytes(), touching);
            SourceChange::Edited(SourceEdit { number: line, changed_bytes })
        },
        UnitRow::Edit(edit) => {
            let before = rows_of_side(edit.before);
            let after = rows_of_side(edit.after);
            let change = replacement(scene, before, after);
            let ghost plain = change;
            match change {
                SourceChange::Replace { before: removed, after: added, line_endings } => {
                    let removed = marked_edits(&scene.pair.before.source, removed, &marks.removed);
                    let added = marked_edits(&scene.pair.after.source, added, &marks.added);
                    let change = SourceChange::Replace {
                        before: removed,
                        after: added,
                        line_endings,
                    };
                    assert(draws_replacement(*scene, change, plain, before, after, *marks));
                    change
                },
                other => other,
            }
        },
    }
}

/// Covered lines exist.
pub open spec fn coverage_fits(coverage: LineCoverage, before_count: int, after_count: int) -> bool {
    &&& coverage.before matches Some(lines) ==> 1 <= lines.start < lines.end <= before_count + 1
    &&& coverage.after matches Some(lines) ==> 1 <= lines.start < lines.end <= after_count + 1
}

/// Cover one more line.
pub fn include_line(coverage: &mut Option<Span>, line: usize)
    requires
        line < usize::MAX,
    ensures
        *final(coverage) == included(
            *old(coverage),
            Some(Span { start: line, end: (line + 1) as usize }),
        ),
{
    include_range(coverage, Some(Span { start: line, end: line + 1 }));
}

/// Cover zero-based rows, if there are any.
pub fn include_rows(coverage: &mut Option<Span>, rows: Span)
    requires
        rows.end < usize::MAX,
    ensures
        *final(coverage) == included(
            *old(coverage),
            if rows.start < rows.end {
                Some(Span { start: (rows.start + 1) as usize, end: (rows.end + 1) as usize })
            } else {
                None
            },
        ),
{
    if rows.start < rows.end {
        include_range(coverage, Some(Span { start: rows.start + 1, end: rows.end + 1 }));
    }
}

} // verus!

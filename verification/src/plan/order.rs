//! Current-world order of changes, old lines included.

use crate::change::AfterGap;
use crate::correspondence::links::LineLink;
use crate::correspondence::lines::rows_ascend;
use crate::correspondence::scopes::{ascending, insert_ascending};
use crate::span::Span;
use vstd::prelude::*;

verus! {

/// Current-world gap plus ordering inside that gap.
///
/// Deletions come inside a gap before the current line that begins there.
#[derive(Clone, Copy, Debug, PartialEq, Eq, Structural)]
pub struct SourceOrder {
    pub after_gap: AfterGap,
    /// Old line of a deletion; nothing for a current line.
    pub deletion: Option<usize>,
}

/// Lexicographic order: gap, deletions before current lines, then old lines.
pub open spec fn comes_before(left: SourceOrder, right: SourceOrder) -> bool {
    ||| left.after_gap.lines < right.after_gap.lines
    ||| left.after_gap.lines == right.after_gap.lines && match (left.deletion, right.deletion) {
        (Some(left), Some(right)) => left < right,
        (Some(_), None) => true,
        (None, _) => false,
    }
}

/// The order is strict and total.
pub proof fn law_source_order_is_total(left: SourceOrder, right: SourceOrder, third: SourceOrder)
    ensures
        !comes_before(left, left),
        comes_before(left, right) ==> !comes_before(right, left),
        comes_before(left, right) && comes_before(right, third) ==> comes_before(left, third),
        comes_before(left, right) || comes_before(right, left) || left == right,
{
}

impl SourceOrder {
    /// Place of a current line.
    pub fn current(line: usize) -> (order: SourceOrder)
        ensures
            order.deletion is None,
            order.after_gap.lines == if line > 0 {
                line - 1
            } else {
                0
            },
    {
        SourceOrder {
            after_gap: AfterGap::new(
                if line > 0 {
                    line - 1
                } else {
                    0
                },
            ),
            deletion: None,
        }
    }

    /// Place of an old line inside a gap.
    pub fn removal(after_gap: AfterGap, before_line: usize) -> (order: SourceOrder)
        ensures
            order.after_gap == after_gap,
            order.deletion == Some(before_line),
    {
        SourceOrder { after_gap, deletion: Some(before_line) }
    }

    pub fn precedes(&self, other: &SourceOrder) -> (result: bool)
        ensures
            result == comes_before(*self, *other),
    {
        if self.after_gap.lines != other.after_gap.lines {
            return self.after_gap.lines < other.after_gap.lines;
        }
        match (self.deletion, other.deletion) {
            (Some(left), Some(right)) => left < right,
            (Some(_), None) => true,
            (None, _) => false,
        }
    }
}

/// The list holds what it held, the line, and nothing else.
pub open spec fn holds_also(later: Seq<usize>, earlier: Seq<usize>, line: usize) -> bool {
    forall|other: usize| #[trigger]
        later.contains(other) <==> earlier.contains(other) || other == line
}

/// The list holds what both hold and nothing else.
pub open spec fn holds_both(later: Seq<usize>, earlier: Seq<usize>, added: Seq<usize>) -> bool {
    forall|line: usize| #[trigger]
        later.contains(line) <==> earlier.contains(line) || added.contains(line)
}

/// One more of the added lines.
proof fn lemma_holds_more(
    later: Seq<usize>,
    middle: Seq<usize>,
    earlier: Seq<usize>,
    added: Seq<usize>,
    index: int,
)
    requires
        0 <= index < added.len(),
        holds_both(middle, earlier, added.take(index)),
        holds_also(later, middle, added[index]),
    ensures
        holds_both(later, earlier, added.take(index + 1)),
{
    let shorter = added.take(index);
    let longer = added.take(index + 1);
    assert(longer[index] == added[index]);
    assert forall|line: usize| #[trigger] later.contains(line) <==> earlier.contains(line)
        || longer.contains(line) by {
        assert(middle.contains(line) <==> earlier.contains(line) || shorter.contains(line));
        if shorter.contains(line) {
            let k = choose|k: int| 0 <= k < shorter.len() && shorter[k] == line;
            assert(longer[k] == line);
        }
        if longer.contains(line) {
            let k = choose|k: int| 0 <= k < longer.len() && longer[k] == line;
            if k < index {
                assert(shorter[k] == line);
            }
        }
    }
}

/// Physical signal lines retained before context halos or breadcrumbs expand selection.
pub struct SignalFocus {
    pub before: Vec<usize>,
    pub after: Vec<usize>,
}

impl SignalFocus {
    /// Line numbers ascend, start at one, and exist.
    pub open spec fn fits(self, before_count: int, after_count: int) -> bool {
        &&& ascending(self.before@)
        &&& ascending(self.after@)
        &&& forall|k: int|
            0 <= k < self.before@.len() ==> 1 <= (#[trigger] self.before@[k]) <= before_count
        &&& forall|k: int|
            0 <= k < self.after@.len() ==> 1 <= (#[trigger] self.after@[k]) <= after_count
    }

    pub open spec fn has_lines(self) -> bool {
        self.before@.len() > 0 || self.after@.len() > 0
    }

    /// No lines yet.
    pub fn nothing() -> (focus: SignalFocus)
        ensures
            focus.fits(0, 0),
            !focus.has_lines(),
    {
        SignalFocus { before: Vec::new(), after: Vec::new() }
    }

    pub fn is_empty(&self) -> (result: bool)
        ensures
            result == !self.has_lines(),
    {
        self.before.len() == 0 && self.after.len() == 0
    }

    /// Add an old line.
    pub fn add_before(&mut self, line: usize, Ghost(before_count): Ghost<int>, Ghost(after_count): Ghost<int>)
        requires
            old(self).fits(before_count, after_count),
            1 <= line <= before_count,
        ensures
            final(self).fits(before_count, after_count),
            final(self).has_lines(),
            final(self).after@ == old(self).after@,
            holds_also(final(self).before@, old(self).before@, line),
    {
        let ghost earlier = self.before@;
        insert_ascending(&mut self.before, line);
        proof {
            assert(self.before@.contains(line));
            lemma_inserted_lines(earlier, self.before@, line, before_count);
        }
    }

    /// Add a current line.
    pub fn add_after(&mut self, line: usize, Ghost(before_count): Ghost<int>, Ghost(after_count): Ghost<int>)
        requires
            old(self).fits(before_count, after_count),
            1 <= line <= after_count,
        ensures
            final(self).fits(before_count, after_count),
            final(self).has_lines(),
            final(self).before@ == old(self).before@,
            holds_also(final(self).after@, old(self).after@, line),
    {
        let ghost earlier = self.after@;
        insert_ascending(&mut self.after, line);
        proof {
            assert(self.after@.contains(line));
            lemma_inserted_lines(earlier, self.after@, line, after_count);
        }
    }

    /// Take over the lines of another focus.
    pub fn merge(&mut self, other: SignalFocus, Ghost(before_count): Ghost<int>, Ghost(after_count): Ghost<int>)
        requires
            old(self).fits(before_count, after_count),
            other.fits(before_count, after_count),
        ensures
            final(self).fits(before_count, after_count),
            old(self).has_lines() || other.has_lines() ==> final(self).has_lines(),
            holds_both(final(self).before@, old(self).before@, other.before@),
            holds_both(final(self).after@, old(self).after@, other.after@),
    {
        let mut index: usize = 0;
        assert(other.before@.take(0) =~= Seq::empty());
        assert(other.after@.take(0) =~= Seq::empty());
        while index < other.before.len()
            invariant
                self.fits(before_count, after_count),
                other.fits(before_count, after_count),
                index <= other.before@.len(),
                old(self).has_lines() || index > 0 ==> self.has_lines(),
                holds_both(self.before@, old(self).before@, other.before@.take(index as int)),
                self.after@ == old(self).after@,
            decreases other.before@.len() - index,
        {
            assert(1 <= other.before@[index as int] <= before_count);
            let ghost middle = self.before@;
            self.add_before(other.before[index], Ghost(before_count), Ghost(after_count));
            proof {
                lemma_holds_more(
                    self.before@,
                    middle,
                    old(self).before@,
                    other.before@,
                    index as int,
                );
            }
            index += 1;
        }
        let mut position: usize = 0;
        assert(other.before@.take(index as int) =~= other.before@);
        while position < other.after.len()
            invariant
                self.fits(before_count, after_count),
                other.fits(before_count, after_count),
                position <= other.after@.len(),
                old(self).has_lines() || other.before@.len() > 0 || position > 0
                    ==> self.has_lines(),
                holds_both(self.before@, old(self).before@, other.before@),
                holds_both(self.after@, old(self).after@, other.after@.take(position as int)),
            decreases other.after@.len() - position,
        {
            assert(1 <= other.after@[position as int] <= after_count);
            let ghost middle = self.after@;
            self.add_after(other.after[position], Ghost(before_count), Ghost(after_count));
            proof {
                lemma_holds_more(
                    self.after@,
                    middle,
                    old(self).after@,
                    other.after@,
                    position as int,
                );
            }
            position += 1;
        }
        assert(other.after@.take(position as int) =~= other.after@);
    }
}

/// Adding an existing line keeps the bounds.
pub proof fn lemma_inserted_lines(
    earlier: Seq<usize>,
    later: Seq<usize>,
    line: usize,
    count: int,
)
    requires
        1 <= line <= count,
        forall|k: int| 0 <= k < earlier.len() ==> 1 <= (#[trigger] earlier[k]) <= count,
        forall|other: usize|
            later.contains(other) <==> earlier.contains(other) || other == line,
    ensures
        forall|k: int| 0 <= k < later.len() ==> 1 <= (#[trigger] later[k]) <= count,
{
    assert forall|k: int| 0 <= k < later.len() implies 1 <= (#[trigger] later[k]) <= count by {
        let value = later[k];
        assert(later.contains(value));
        if value != line {
            assert(earlier.contains(value));
            let at = choose|at: int| 0 <= at < earlier.len() && earlier[at] == value;
            assert(1 <= earlier[at] <= count);
        }
    }
}

/// Smallest range that holds all lines of an ascending list.
pub fn line_hull(lines: &Vec<usize>) -> (hull: Option<Span>)
    requires
        ascending(lines@),
        forall|k: int| 0 <= k < lines@.len() ==> (#[trigger] lines@[k]) < usize::MAX,
    ensures
        hull is None <==> lines@.len() == 0,
        hull matches Some(hull) ==> hull.start == lines@[0] && hull.end == lines@.last() + 1
            && hull.start < hull.end,
{
    if lines.len() == 0 {
        return None;
    }
    assert(lines@[lines@.len() - 1] < usize::MAX);
    proof {
        if lines@.len() > 1 {
            assert(lines@[0] < lines@[lines@.len() - 1]);
        }
    }
    Some(Span { start: lines[0], end: lines[lines.len() - 1] + 1 })
}

/// Monotone edit-script coordinates shared by before-only and current-world rows.
#[derive(Clone, Copy)]
pub struct LineAlignment<'a> {
    pub lines: &'a Vec<LineLink>,
    pub endings: &'a Vec<LineLink>,
    pub before_lines: usize,
    pub after_lines: usize,
}

/// Some link joins the two rows.
pub open spec fn joins(links: Seq<LineLink>, before: usize, after: usize) -> bool {
    links.contains(LineLink { before, after })
}

impl LineAlignment<'_> {
    /// Links ascend and join existing rows.
    pub open spec fn wf(self) -> bool {
        &&& rows_ascend(self.lines@)
        &&& rows_ascend(self.endings@)
        &&& forall|k: int|
            0 <= k < self.lines@.len() ==> (#[trigger] self.lines@[k]).before < self.before_lines
                && self.lines@[k].after < self.after_lines
        &&& forall|k: int|
            0 <= k < self.endings@.len() ==> (#[trigger] self.endings@[k]).before
                < self.before_lines && self.endings@[k].after < self.after_lines
        &&& self.before_lines < usize::MAX
        &&& self.after_lines < usize::MAX
    }

    /// An unchanged row or a terminator edit joins the two rows.
    pub open spec fn pairs_rows(self, before: usize, after: usize) -> bool {
        joins(self.lines@, before, after) || joins(self.endings@, before, after)
    }

    /// Some current row is joined to the old row.
    pub open spec fn has_pair(self, before: usize) -> bool {
        exists|after: usize| #[trigger] self.pairs_rows(before, after)
    }

    /// As many current lines come before the old row as up to the last joined row before it.
    pub open spec fn is_gap(self, row: usize, lines: int) -> bool {
        ||| lines == 0 && forall|before: usize, after: usize| #[trigger]
            self.pairs_rows(before, after) ==> before >= row
        ||| exists|last: LineLink| #[trigger]
            self.pairs_rows(last.before, last.after) && last.before < row && lines == last.after + 1
                && forall|before: usize, after: usize| #[trigger]
                self.pairs_rows(before, after) && before < row ==> before < last.before || before
                    == last.before && after <= last.after
    }

    /// Place of an old line: of the current row joined to it, or in the gap where it stood.
    pub open spec fn is_place(self, line: usize, order: SourceOrder) -> bool {
        let row = if line > 0 {
            (line - 1) as usize
        } else {
            0
        };
        if self.has_pair(row) {
            order.deletion is None && self.pairs_rows(row, order.after_gap.lines)
        } else {
            order.deletion == Some(line) && self.is_gap(row, order.after_gap.lines as int)
        }
    }

    /// The old line has a place that does not come before the given one.
    pub open spec fn places_later(self, line: usize, order: SourceOrder) -> bool {
        exists|place: SourceOrder| #[trigger]
            self.is_place(line, place) && !comes_before(place, order)
    }

    /// Earliest place among old lines.
    pub open spec fn is_first_place(self, lines: Seq<usize>, order: SourceOrder) -> bool {
        &&& exists|k: int| 0 <= k < lines.len() && self.is_place(#[trigger] lines[k], order)
        &&& forall|k: int|
            0 <= k < lines.len() ==> self.places_later(#[trigger] lines[k], order)
    }

    /// The current line at which an old line would stand, cut at the last line.
    pub open spec fn is_anchor_line(self, before_line: usize, line: usize) -> bool {
        exists|order: SourceOrder| #[trigger]
            self.is_place(before_line, order) && line == if order.after_gap.lines + 1
                > self.after_lines {
                self.after_lines as int
            } else {
                order.after_gap.lines + 1
            }
    }

    /// Some old line stands at the current line.
    pub open spec fn has_anchor(self, lines: Seq<usize>, line: int) -> bool {
        exists|k: int, anchor: usize|
            0 <= k < lines.len() && anchor == line && #[trigger] self.is_anchor_line(
                lines[k],
                anchor,
            )
    }

    /// The old line stands in the range of current lines.
    pub open spec fn anchors_in(self, before_line: usize, span: Span) -> bool {
        exists|anchor: usize| #[trigger]
            self.is_anchor_line(before_line, anchor) && span.has(anchor as int)
    }

    /// Smallest range that holds the current lines at which old lines stand.
    pub open spec fn is_anchor_hull(self, lines: Seq<usize>, hull: Option<Span>) -> bool {
        match hull {
            None => lines.len() == 0 || self.after_lines == 0,
            Some(span) => self.after_lines > 0 && self.has_anchor(lines, span.start as int)
                && self.has_anchor(lines, span.end - 1) && forall|k: int|
                0 <= k < lines.len() ==> self.anchors_in(#[trigger] lines[k], span),
        }
    }

    /// Unchanged rows and terminator edits share physical source order.
    fn line_pair_at_before(&self, row: usize) -> (pair: Option<LineLink>)
        requires
            self.wf(),
        ensures
            pair matches Some(link) ==> link.before == row && link.after < self.after_lines
                && self.pairs_rows(row, link.after),
            pair is None <==> !self.has_pair(row),
    {
        let first = line_link_at_before(self.lines, row);
        let second = line_link_at_before(self.endings, row);
        proof {
            if let Some(link) = first {
                assert(self.pairs_rows(row, link.after));
            }
            if let Some(link) = second {
                assert(self.pairs_rows(row, link.after));
            }
        }
        match (first, second) {
            (Some(left), Some(right)) => if left.after <= right.after {
                Some(left)
            } else {
                Some(right)
            },
            (Some(left), None) => Some(left),
            (None, other) => other,
        }
    }

    fn line_pair_at_after(&self, row: usize) -> (pair: Option<LineLink>)
        requires
            self.wf(),
        ensures
            pair matches Some(link) ==> link.after == row && link.before < self.before_lines
                && self.pairs_rows(link.before, row),
            pair is None ==> forall|before: usize| !#[trigger] self.pairs_rows(before, row),
    {
        let first = line_link_at_after(self.lines, row);
        let second = line_link_at_after(self.endings, row);
        match (first, second) {
            (Some(left), Some(right)) => if left.before <= right.before {
                Some(left)
            } else {
                Some(right)
            },
            (Some(left), None) => Some(left),
            (None, other) => other,
        }
    }

    /// Number of current lines that come before an unmatched old row.
    fn preceding_lines(&self, row: usize) -> (lines: usize)
        requires
            self.wf(),
        ensures
            lines <= self.after_lines,
            self.is_gap(row, lines as int),
    {
        let first = preceding_line_link(self.lines, row);
        let second = preceding_line_link(self.endings, row);
        proof {
            assert forall|before: usize, after: usize| #[trigger]
                self.pairs_rows(before, after) && before < row implies (first matches Some(link)
                && (before < link.before || before == link.before && after == link.after))
                || (second matches Some(link) && (before < link.before || before == link.before
                && after == link.after)) by {
                let link = LineLink { before, after };
                if self.lines@.contains(link) {
                    let k = choose|k: int| 0 <= k < self.lines@.len() && self.lines@[k] == link;
                    assert(self.lines@[k].before < row);
                } else {
                    let k = choose|k: int| 0 <= k < self.endings@.len() && self.endings@[k] == link;
                    assert(self.endings@[k].before < row);
                }
            }
            if let Some(link) = first {
                assert(self.pairs_rows(link.before, link.after));
            }
            if let Some(link) = second {
                assert(self.pairs_rows(link.before, link.after));
            }
        }
        match (first, second) {
            (Some(left), Some(right)) => if left.before > right.before || (left.before
                == right.before && left.after > right.after) {
                left.after + 1
            } else {
                right.after + 1
            },
            (Some(left), None) => left.after + 1,
            (None, Some(right)) => right.after + 1,
            (None, None) => 0,
        }
    }

    /// Unmatched old lines occupy an explicit gap; exact lines share current order.
    pub fn before_order(&self, line: usize) -> (order: SourceOrder)
        requires
            self.wf(),
        ensures
            order.after_gap.lines <= self.after_lines,
            self.is_place(line, order),
    {
        let row = if line > 0 {
            line - 1
        } else {
            0
        };
        match self.line_pair_at_before(row) {
            Some(link) => SourceOrder::current(link.after + 1),
            None => SourceOrder::removal(AfterGap::new(self.preceding_lines(row)), line),
        }
    }

    /// Current line at which an old line would stand.
    pub fn current_anchor(&self, before_line: usize) -> (line: Option<usize>)
        requires
            self.wf(),
        ensures
            line is None <==> self.after_lines == 0,
            line matches Some(line) ==> 1 <= line <= self.after_lines && self.is_anchor_line(
                before_line,
                line,
            ),
    {
        if self.after_lines == 0 {
            return None;
        }
        let order = self.before_order(before_line);
        assert(self.is_place(before_line, order));
        let line = order.after_gap.preceding_lines() + 1;
        Some(
            if line > self.after_lines {
                self.after_lines
            } else {
                line
            },
        )
    }

    /// Old line paired with a current line.
    pub fn aligned_before_line(&self, after_line: usize) -> (line: Option<usize>)
        requires
            self.wf(),
        ensures
            line matches Some(line) ==> 1 <= line <= self.before_lines && after_line > 0
                && self.pairs_rows((line - 1) as usize, (after_line - 1) as usize),
            line is None ==> after_line == 0 || forall|before: usize| !#[trigger] self.pairs_rows(
                before,
                (after_line - 1) as usize,
            ),
    {
        if after_line == 0 {
            return None;
        }
        match self.line_pair_at_after(after_line - 1) {
            Some(link) => Some(link.before + 1),
            None => None,
        }
    }

    /// The earlier of a first place and the place of one more line.
    pub proof fn lemma_one_more_place(
        self,
        lines: Seq<usize>,
        line: usize,
        first: SourceOrder,
        candidate: SourceOrder,
    )
        requires
            self.is_first_place(lines, first),
            self.is_place(line, candidate),
        ensures
            self.is_first_place(
                lines.push(line),
                if comes_before(candidate, first) {
                    candidate
                } else {
                    first
                },
            ),
    {
        let longer = lines.push(line);
        let order = if comes_before(candidate, first) {
            candidate
        } else {
            first
        };
        assert forall|k: int| 0 <= k < longer.len() implies self.places_later(
            #[trigger] longer[k],
            order,
        ) by {
            if k < lines.len() {
                assert(longer[k] == lines[k]);
                assert(self.places_later(lines[k], first));
                let place = choose|place: SourceOrder| #[trigger]
                    self.is_place(lines[k], place) && !comes_before(place, first);
                assert(self.is_place(longer[k], place));
            } else {
                assert(self.is_place(longer[k], candidate));
            }
        }
        let k = choose|k: int| 0 <= k < lines.len() && self.is_place(#[trigger] lines[k], first);
        assert(longer[k] == lines[k]);
        assert(longer[lines.len() as int] == line);
    }

    /// Earliest place of a change: its first current line, or its first old line.
    pub fn focus_order(&self, focus: &SignalFocus) -> (order: SourceOrder)
        requires
            self.wf(),
            focus.has_lines(),
        ensures
            focus.after@.len() > 0 ==> order.deletion is None && order.after_gap.lines == (
            if focus.after@[0] > 0 {
                focus.after@[0] - 1
            } else {
                0
            }),
            focus.after@.len() == 0 ==> self.is_first_place(focus.before@, order),
    {
        if focus.after.len() > 0 {
            return SourceOrder::current(focus.after[0]);
        }
        let mut order = self.before_order(focus.before[0]);
        proof {
            let first = focus.before@.take(1);
            assert(first[0] == focus.before@[0]);
            assert(self.places_later(first[0], order));
            assert(self.is_first_place(first, order));
        }
        let mut index: usize = 1;
        while index < focus.before.len()
            invariant
                self.wf(),
                1 <= index <= focus.before@.len(),
                self.is_first_place(focus.before@.take(index as int), order),
            decreases focus.before@.len() - index,
        {
            let candidate = self.before_order(focus.before[index]);
            let ghost earlier = order;
            if candidate.precedes(&order) {
                order = candidate;
            }
            proof {
                self.lemma_one_more_place(
                    focus.before@.take(index as int),
                    focus.before@[index as int],
                    earlier,
                    candidate,
                );
                assert(focus.before@.take(index + 1) =~= focus.before@.take(index as int).push(
                    focus.before@[index as int],
                ));
            }
            index += 1;
        }
        assert(focus.before@.take(index as int) =~= focus.before@);
        order
    }

    /// Current lines of a change, or where its old lines would stand.
    pub fn current_focus(&self, focus: &SignalFocus) -> (lines: Option<Span>)
        requires
            self.wf(),
            focus.fits(self.before_lines as int, self.after_lines as int),
        ensures
            lines matches Some(span) ==> 1 <= span.start < span.end <= self.after_lines + 1,
            focus.has_lines() && self.after_lines > 0 ==> lines is Some,
            focus.after@.len() > 0 ==> lines == Some(
                Span { start: focus.after@[0], end: (focus.after@.last() + 1) as usize },
            ),
            focus.after@.len() == 0 ==> self.is_anchor_hull(focus.before@, lines),
    {
        if focus.after.len() > 0 {
            proof {
                assert(1 <= focus.after@[0] <= self.after_lines);
                assert(1 <= focus.after@[focus.after@.len() - 1] <= self.after_lines);
            }
            return line_hull(&focus.after);
        }
        let mut lines: Option<Span> = None;
        let mut index: usize = 0;
        while index < focus.before.len()
            invariant
                self.wf(),
                index <= focus.before@.len(),
                lines matches Some(span) ==> 1 <= span.start < span.end <= self.after_lines + 1,
                index > 0 && self.after_lines > 0 ==> lines is Some,
                self.is_anchor_hull(focus.before@.take(index as int), lines),
            decreases focus.before@.len() - index,
        {
            let ghost shorter = lines;
            if let Some(line) = self.current_anchor(focus.before[index]) {
                crate::context::include_range(
                    &mut lines,
                    Some(Span { start: line, end: line + 1 }),
                );
                proof {
                    let earlier = focus.before@.take(index as int);
                    self.lemma_hull_grows(earlier, focus.before@[index as int], shorter, line);
                    assert(focus.before@.take(index + 1) =~= earlier.push(
                        focus.before@[index as int],
                    ));
                }
            }
            index += 1;
        }
        assert(focus.before@.take(index as int) =~= focus.before@);
        lines
    }

    proof fn lemma_hull_grows(
        self,
        lines: Seq<usize>,
        added: usize,
        hull: Option<Span>,
        anchor: usize,
    )
        requires
            self.is_anchor_hull(lines, hull),
            self.after_lines > 0,
            self.is_anchor_line(added, anchor),
            anchor < usize::MAX,
            hull matches Some(span) ==> span.start < span.end,
        ensures
            self.is_anchor_hull(
                lines.push(added),
                crate::context::included(
                    hull,
                    Some(Span { start: anchor, end: (anchor + 1) as usize }),
                ),
            ),
    {
        let longer = lines.push(added);
        let span = crate::context::included(
            hull,
            Some(Span { start: anchor, end: (anchor + 1) as usize }),
        )->0;
        assert(self.is_anchor_line(longer[lines.len() as int], anchor));
        assert(self.has_anchor(longer, anchor as int));
        if let Some(shorter) = hull {
            let (k, from) = choose|k: int, from: usize|
                0 <= k < lines.len() && from == shorter.start && #[trigger] self.is_anchor_line(
                    lines[k],
                    from,
                );
            assert(self.is_anchor_line(longer[k], from));
            assert(self.has_anchor(longer, shorter.start as int));
            let (k, to) = choose|k: int, to: usize|
                0 <= k < lines.len() && to == shorter.end - 1 && #[trigger] self.is_anchor_line(
                    lines[k],
                    to,
                );
            assert(self.is_anchor_line(longer[k], to));
            assert(self.has_anchor(longer, shorter.end - 1));
        }
        assert forall|k: int| 0 <= k < longer.len() implies self.anchors_in(
            #[trigger] longer[k],
            span,
        ) by {
            if k < lines.len() {
                assert(self.anchors_in(lines[k], hull->0));
                let at = choose|at: usize| #[trigger]
                    self.is_anchor_line(lines[k], at) && (hull->0).has(at as int);
                assert(self.is_anchor_line(longer[k], at) && span.has(at as int));
            } else {
                assert(self.is_anchor_line(longer[k], anchor) && span.has(anchor as int));
            }
        }
    }

    /// Current line at which an order stands.
    pub fn order_focus(&self, order: SourceOrder) -> (line: Option<usize>)
        requires
            self.wf(),
        ensures
            line is None <==> self.after_lines == 0,
            line matches Some(line) ==> 1 <= line <= self.after_lines,
            line matches Some(line) ==> line == if order.after_gap.lines + 1 <= self.after_lines {
                order.after_gap.lines + 1
            } else {
                self.after_lines as int
            },
    {
        if self.after_lines == 0 {
            return None;
        }
        let lines = order.after_gap.preceding_lines();
        Some(
            if lines >= self.after_lines {
                self.after_lines
            } else {
                lines + 1
            },
        )
    }
}

/// Number of links whose row comes before the given one.
fn links_before(links: &Vec<LineLink>, row: usize, of_before: bool) -> (count: usize)
    requires
        rows_ascend(links@),
    ensures
        count <= links@.len(),
        forall|k: int|
            0 <= k < count ==> (if of_before {
                (#[trigger] links@[k]).before
            } else {
                links@[k].after
            }) < row,
        forall|k: int|
            count <= k < links@.len() ==> (if of_before {
                (#[trigger] links@[k]).before
            } else {
                links@[k].after
            }) >= row,
{
    let mut low: usize = 0;
    let mut high: usize = links.len();
    while low < high
        invariant
            rows_ascend(links@),
            low <= high <= links@.len(),
            forall|k: int|
                0 <= k < low ==> (if of_before {
                    (#[trigger] links@[k]).before
                } else {
                    links@[k].after
                }) < row,
            forall|k: int|
                high <= k < links@.len() ==> (if of_before {
                    (#[trigger] links@[k]).before
                } else {
                    links@[k].after
                }) >= row,
        decreases high - low,
    {
        let middle = low + (high - low) / 2;
        let value = if of_before {
            links[middle].before
        } else {
            links[middle].after
        };
        if value < row {
            low = middle + 1;
        } else {
            high = middle;
        }
    }
    low
}

fn line_link_at_before(links: &Vec<LineLink>, before: usize) -> (link: Option<LineLink>)
    requires
        rows_ascend(links@),
    ensures
        link matches Some(link) ==> link.before == before && links@.contains(link),
        link is None ==> forall|k: int|
            0 <= k < links@.len() ==> (#[trigger] links@[k]).before != before,
{
    let index = links_before(links, before, true);
    if index < links.len() && links[index].before == before {
        assert(links@[index as int] == links@[index as int]);
        return Some(links[index]);
    }
    proof {
        assert forall|k: int| 0 <= k < links@.len() implies (#[trigger] links@[k]).before
            != before by {
            if k > index {
                assert(links@[index as int].before < links@[k].before);
            }
        }
    }
    None
}

fn line_link_at_after(links: &Vec<LineLink>, after: usize) -> (link: Option<LineLink>)
    requires
        rows_ascend(links@),
    ensures
        link matches Some(link) ==> link.after == after && links@.contains(link),
        link is None ==> forall|k: int|
            0 <= k < links@.len() ==> (#[trigger] links@[k]).after != after,
{
    let index = links_before(links, after, false);
    if index < links.len() && links[index].after == after {
        assert(links@[index as int] == links@[index as int]);
        return Some(links[index]);
    }
    proof {
        assert forall|k: int| 0 <= k < links@.len() implies (#[trigger] links@[k]).after
            != after by {
            if k > index {
                assert(links@[index as int].after < links@[k].after);
            }
        }
    }
    None
}

fn preceding_line_link(links: &Vec<LineLink>, before: usize) -> (link: Option<LineLink>)
    requires
        rows_ascend(links@),
    ensures
        link matches Some(link) ==> link.before < before && links@.contains(link),
        link matches Some(link) ==> forall|k: int|
            0 <= k < links@.len() && (#[trigger] links@[k]).before < before ==> links@[k].before
                < link.before || links@[k] == link,
        link is None ==> forall|k: int|
            0 <= k < links@.len() ==> (#[trigger] links@[k]).before >= before,
{
    let index = links_before(links, before, true);
    if index == 0 {
        return None;
    }
    assert(links@[index - 1].before < before);
    proof {
        assert forall|k: int|
            0 <= k < links@.len() && (#[trigger] links@[k]).before < before implies links@[k].before
            < links@[index - 1].before || links@[k] == links@[index - 1] by {
            if k < index - 1 {
                assert(links@[k].before < links@[index - 1].before);
            }
        }
    }
    Some(links[index - 1])
}

} // verus!

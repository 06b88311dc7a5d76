//! Physical rows of nodes, and rows compared across revisions.

use crate::correspondence::keys::{extends, lemma_text_words, text_words, Interner};
use crate::frontend::adapter::{gap_is_blank, is_blank_range, on_boundaries};
use crate::source::{is_line_of, Source};
use crate::span::Span;
use crate::syntax::{NodeId, SyntaxTree};
use vstd::prelude::*;

verus! {

/// Rows of a node as zero-based indices, cut at the end of the source.
pub open spec fn row_span(tree: SyntaxTree, id: int) -> Span {
    let lines = tree.nodes@[id].lines;
    let count = tree.source.line_seq().len() as int;
    let start = clamp(lines.start - 1, count);
    let end = clamp(lines.end - 1, count);
    Span {
        start: (if start <= end {
            start
        } else {
            end
        }) as usize,
        end: end as usize,
    }
}

/// A value moved into `0..=count`.
pub open spec fn clamp(value: int, count: int) -> int {
    if value < 0 {
        0
    } else if value > count {
        count
    } else {
        value
    }
}

/// Zero-based rows of a node.
pub fn zero_based_lines(tree: &SyntaxTree, id: NodeId) -> (rows: Span)
    requires
        tree.has_node(id as int),
    ensures
        rows == row_span(*tree, id as int),
        rows.start <= rows.end <= tree.source.line_seq().len(),
{
    let lines = tree.nodes[id].lines;
    let count = tree.source.line_count();
    let first = if lines.start > 0 {
        lines.start - 1
    } else {
        0
    };
    let last = if lines.end > 0 {
        lines.end - 1
    } else {
        0
    };
    let start = if first > count {
        count
    } else {
        first
    };
    let end = if last > count {
        count
    } else {
        last
    };
    Span {
        start: if start <= end {
            start
        } else {
            end
        },
        end,
    }
}

/// Text of a row without its terminator.
pub fn row_text(source: &Source, row: usize) -> (text: Option<&str>)
    requires
        row < source.line_seq().len(),
    ensures
        text is Some <==> on_boundaries(
            source.data(),
            source.line_seq()[row as int].content_bytes,
        ),
        text matches Some(text) ==> vstd::utf8::encode_utf8(text@) == source.line_content(
            source.line_seq()[row as int],
        ),
{
    let line = source.lines()[row];
    source.slice(line.content_bytes.start, line.content_bytes.end)
}

/// The row exists and holds only white space.
pub open spec fn is_blank_row(source: Source, row: int) -> bool {
    0 <= row < source.line_seq().len() && is_blank_range(
        source.data(),
        source.line_seq()[row].content_bytes,
    )
}

/// Whether a row exists and holds only white space.
pub fn source_line_is_blank(source: &Source, row: usize) -> (result: bool)
    ensures
        result == is_blank_row(*source, row as int),
{
    row < source.line_count() && gap_is_blank(source, source.lines()[row].content_bytes)
}

/// Blank rows directly before or after a boundary, in order.
pub fn adjacent_blank_lines(source: &Source, boundary: usize, before: bool) -> (rows: Vec<usize>)
    requires
        boundary <= source.line_seq().len(),
    ensures
        forall|k: int|
            0 <= k < rows@.len() ==> (#[trigger] rows@[k]) < source.line_seq().len() && rows@[k]
                == if before {
                boundary - rows@.len() + k
            } else {
                boundary + k
            },
        forall|k: int|
            0 <= k < rows@.len() ==> is_blank_row(*source, (#[trigger] rows@[k]) as int),
        before ==> !is_blank_row(*source, boundary - rows@.len() - 1),
        !before ==> !is_blank_row(*source, boundary + rows@.len()),
{
    let mut rows: Vec<usize> = Vec::new();
    if before {
        let mut first = boundary;
        while first > 0 && source_line_is_blank(source, first - 1)
            invariant
                first <= boundary <= source.line_seq().len(),
                forall|row: int|
                    first <= row < boundary ==> #[trigger] is_blank_row(*source, row),
            decreases first,
        {
            first -= 1;
        }
        let mut row = first;
        while row < boundary
            invariant
                first <= row <= boundary <= source.line_seq().len(),
                rows@.len() == row - first,
                forall|k: int| 0 <= k < rows@.len() ==> (#[trigger] rows@[k]) == first + k,
                forall|row: int|
                    first <= row < boundary ==> #[trigger] is_blank_row(*source, row),
                !is_blank_row(*source, first - 1),
            decreases boundary - row,
        {
            rows.push(row);
            row += 1;
        }
        return rows;
    }
    let count = source.line_count();
    let mut row = boundary;
    while source_line_is_blank(source, row)
        invariant
            count == source.line_seq().len(),
            boundary <= row <= source.line_seq().len(),
            rows@.len() == row - boundary,
            forall|k: int|
                0 <= k < rows@.len() ==> (#[trigger] rows@[k]) == boundary + k && is_blank_row(
                    *source,
                    rows@[k] as int,
                ),
        decreases source.line_seq().len() - row,
    {
        rows.push(row);
        assert(row < count);
        row += 1;
    }
    rows
}

/// Nothing but white space shares the first and last row of a node.
pub open spec fn owns_rows(tree: SyntaxTree, id: int) -> bool {
    let rows = row_span(tree, id);
    let bytes = tree.nodes@[id].bytes;
    let first = tree.source.line_seq()[rows.start as int].content_bytes.start;
    let last = tree.source.line_seq()[rows.end - 1].content_bytes.end;
    &&& !rows.empty()
    &&& is_blank_range(tree.source.data(), Span { start: first, end: bytes.start })
    &&& bytes.end >= last || is_blank_range(tree.source.data(), Span { start: bytes.end, end: last })
}

/// Whether nothing but white space shares the first and last row of a node.
pub fn node_owns_complete_lines(tree: &SyntaxTree, id: NodeId) -> (result: bool)
    requires
        tree.has_node(id as int),
    ensures
        result == owns_rows(*tree, id as int),
{
    let rows = zero_based_lines(tree, id);
    if rows.is_empty() {
        return false;
    }
    let bytes = tree.nodes[id].bytes;
    let first = tree.source.lines()[rows.start];
    let last = tree.source.lines()[rows.end - 1];
    let leading = gap_is_blank(
        &tree.source,
        Span { start: first.content_bytes.start, end: bytes.start },
    );
    let trailing = bytes.end >= last.content_bytes.end || gap_is_blank(
        &tree.source,
        Span { start: bytes.end, end: last.content_bytes.end },
    );
    leading && trailing
}

/// Smallest span that holds both; an empty span adds nothing.
pub open spec fn union_of(left: Span, right: Span) -> Span {
    if left.empty() {
        if right.empty() {
            left
        } else {
            right
        }
    } else if right.empty() {
        left
    } else {
        Span {
            start: if left.start <= right.start {
                left.start
            } else {
                right.start
            },
            end: if left.end >= right.end {
                left.end
            } else {
                right.end
            },
        }
    }
}

pub fn range_union(left: Span, right: Span) -> (span: Span)
    ensures
        span == union_of(left, right),
{
    if left.is_empty() {
        if right.is_empty() {
            left
        } else {
            right
        }
    } else if right.is_empty() {
        left
    } else {
        Span {
            start: if left.start <= right.start {
                left.start
            } else {
                right.start
            },
            end: if left.end >= right.end {
                left.end
            } else {
                right.end
            },
        }
    }
}

/// Both spans hold a common position.
pub open spec fn spans_meet(left: Span, right: Span) -> bool {
    !left.empty() && !right.empty() && left.start < right.end && right.start < left.end
}

pub fn spans_overlap(left: Span, right: Span) -> (result: bool)
    ensures
        result == spans_meet(left, right),
{
    !left.is_empty() && !right.is_empty() && left.start < right.end && right.start < left.end
}

/// Whether one span lies inside another.
pub fn range_contains(outer: Span, inner: Span) -> (result: bool)
    ensures
        result == (outer.start <= inner.start && inner.end <= outer.end),
{
    outer.start <= inner.start && inner.end <= outer.end
}

/// Numbers of row texts: equal numbers mean equal texts, within and across revisions.
pub struct RowTexts {
    pub before: Vec<usize>,
    pub after: Vec<usize>,
}

impl RowTexts {
    /// One number per row, equal exactly where the texts are.
    pub open spec fn describes(self, before: Source, after: Source) -> bool {
        &&& self.before@.len() == before.line_seq().len()
        &&& self.after@.len() == after.line_seq().len()
        &&& forall|i: int, j: int|
            0 <= i < self.before@.len() && 0 <= j < self.after@.len() ==> (#[trigger] self.before@[i]
                == #[trigger] self.after@[j] <==> before.line_content(before.line_seq()[i])
                == after.line_content(after.line_seq()[j]))
    }

    /// Number the rows of both revisions.
    pub fn new(before: &Source, after: &Source) -> (texts: RowTexts)
        requires
            before.wf(),
            after.wf(),
        ensures
            texts.describes(*before, *after),
    {
        let mut interner = Interner::new(before.line_count());
        let left = number_rows(
            before,
            Span { start: 0, end: before.line_count() },
            &mut interner,
        );
        let ghost middle = interner@;
        let right = number_rows(after, Span { start: 0, end: after.line_count() }, &mut interner);
        proof {
            interner.lemma_distinct();
            assert forall|i: int, j: int| 0 <= i < left@.len() && 0 <= j < right@.len() implies (
            #[trigger] left@[i] == #[trigger] right@[j] <==> before.line_content(
                before.line_seq()[i],
            ) == after.line_content(after.line_seq()[j])) by {
                let text = before.line_content(before.line_seq()[i]);
                let other = after.line_content(after.line_seq()[j]);
                assert(middle[left@[i] as int] == text_words(text));
                assert(interner@[left@[i] as int] == text_words(text));
                assert(interner@[right@[j] as int] == text_words(other));
                lemma_text_words(text, other);
            }
        }
        RowTexts { before: left, after: right }
    }

    /// One number per row of the ranges, equal exactly where the texts are.
    pub open spec fn describes_rows(
        self,
        before: Source,
        before_rows: Span,
        after: Source,
        after_rows: Span,
    ) -> bool {
        &&& self.before@.len() == before_rows.end - before_rows.start
        &&& self.after@.len() == after_rows.end - after_rows.start
        &&& forall|i: int, j: int|
            0 <= i < self.before@.len() && 0 <= j < self.after@.len() ==> (#[trigger] self.before@[i]
                == #[trigger] self.after@[j] <==> before.line_content(
                before.line_seq()[before_rows.start + i],
            ) == after.line_content(after.line_seq()[after_rows.start + j]))
    }

    /// Number the rows of two ranges.
    pub fn of_rows(before: &Source, before_rows: Span, after: &Source, after_rows: Span) -> (texts:
        RowTexts)
        requires
            before.wf(),
            after.wf(),
            before_rows.start <= before_rows.end <= before.line_seq().len(),
            after_rows.start <= after_rows.end <= after.line_seq().len(),
        ensures
            texts.describes_rows(*before, before_rows, *after, after_rows),
    {
        let mut interner = Interner::new(before_rows.len());
        let left = number_rows(before, before_rows, &mut interner);
        let ghost middle = interner@;
        let right = number_rows(after, after_rows, &mut interner);
        proof {
            interner.lemma_distinct();
            assert forall|i: int, j: int| 0 <= i < left@.len() && 0 <= j < right@.len() implies (
            #[trigger] left@[i] == #[trigger] right@[j] <==> before.line_content(
                before.line_seq()[before_rows.start + i],
            ) == after.line_content(after.line_seq()[after_rows.start + j])) by {
                let text = before.line_content(before.line_seq()[before_rows.start + i]);
                let other = after.line_content(after.line_seq()[after_rows.start + j]);
                assert(middle[left@[i] as int] == text_words(text));
                assert(interner@[left@[i] as int] == text_words(text));
                assert(interner@[right@[j] as int] == text_words(other));
                lemma_text_words(text, other);
            }
        }
        RowTexts { before: left, after: right }
    }
}

/// Number rows of one source.
fn number_rows(source: &Source, rows: Span, interner: &mut Interner) -> (ids: Vec<usize>)
    requires
        source.wf(),
        rows.start <= rows.end <= source.line_seq().len(),
        old(interner).wf(),
    ensures
        final(interner).wf(),
        extends(final(interner)@, old(interner)@),
        ids@.len() == rows.end - rows.start,
        forall|i: int|
            0 <= i < ids@.len() ==> (#[trigger] ids@[i]) < final(interner)@.len()
                && final(interner)@[ids@[i] as int] == text_words(
                source.line_content(source.line_seq()[rows.start + i]),
            ),
{
    let mut ids: Vec<usize> = Vec::new();
    let mut row: usize = rows.start;
    while row < rows.end
        invariant
            source.wf(),
            interner.wf(),
            extends(interner@, old(interner)@),
            rows.start <= row <= rows.end <= source.line_seq().len(),
            ids@.len() == row - rows.start,
            forall|i: int|
                0 <= i < ids@.len() ==> (#[trigger] ids@[i]) < interner@.len()
                    && interner@[ids@[i] as int] == text_words(
                    source.line_content(source.line_seq()[rows.start + i]),
                ),
        decreases rows.end - row,
    {
        let line = source.lines()[row];
        assert(is_line_of(source.data(), source.line_seq()[row as int]));
        let bytes = source.as_bytes();
        let mut words: Vec<usize> = Vec::new();
        let mut at = line.content_bytes.start;
        while at < line.content_bytes.end
            invariant
                line.content_bytes.start <= at <= line.content_bytes.end <= bytes@.len(),
                words@ == text_words(bytes@.subrange(line.content_bytes.start as int, at as int)),
            decreases line.content_bytes.end - at,
        {
            words.push(bytes[at] as usize);
            assert(words@ =~= text_words(
                bytes@.subrange(line.content_bytes.start as int, at + 1),
            ));
            at += 1;
        }
        let ghost earlier = interner@;
        let id = interner.intern(words);
        ids.push(id);
        proof {
            assert forall|i: int| 0 <= i < ids@.len() implies (#[trigger] ids@[i])
                < interner@.len() && interner@[ids@[i] as int] == text_words(
                source.line_content(source.line_seq()[rows.start + i]),
            ) by {
                if i < row - rows.start {
                    assert(earlier[ids@[i] as int] == interner@[ids@[i] as int]);
                }
            }
        }
        row += 1;
    }
    ids
}

} // verus!

//! Turn source coordinates into styled rows after their order and coverage are fixed.

use crate::context::ranges_overlap;
use crate::correspondence::scopes::{ascending, insert_ascending};
use crate::review::{
    change_fits, changes_fit, is_line, CompactChange, LineCoverage, LineEndingChange, MoveBlock,
    RefinedHunk, SourceChange, SourceEdit,
};
use crate::source::{is_line_of, LineEnding, Source};
use crate::span::Span;
use crate::syntax::{lemma_leaf_positions, NodeId, SyntaxClass, SyntaxTree};
use crate::text::chars_of;
use vstd::prelude::*;
use vstd::string::*;
use vstd::utf8::*;

verus! {

/// Change emphasis, independent of syntax coloring.
#[derive(Clone, Copy, Debug, PartialEq, Eq, Structural)]
pub enum DiffMark {
    Context,
    Removed,
    Added,
}

/// Text of one color and one emphasis.
#[derive(Clone, Debug, PartialEq, Eq)]
pub struct SourceSpan {
    pub text: String,
    pub syntax: SyntaxClass,
    pub mark: DiffMark,
}

/// A one-based source line with its terminator excluded from the spans.
#[derive(Clone, Debug, PartialEq, Eq)]
pub struct SourceRow {
    pub number: usize,
    pub spans: Vec<SourceSpan>,
}

impl SourceRow {
    /// Whether any span is emphasized.
    pub fn has_changes(&self) -> (result: bool)
        ensures
            result == exists|k: int|
                0 <= k < self.spans@.len() && (#[trigger] self.spans@[k]).mark != DiffMark::Context,
    {
        let mut index: usize = 0;
        while index < self.spans.len()
            invariant
                index <= self.spans@.len(),
                forall|k: int|
                    0 <= k < index ==> (#[trigger] self.spans@[k]).mark == DiffMark::Context,
            decreases self.spans@.len() - index,
        {
            if self.spans[index].mark != DiffMark::Context {
                assert(self.spans@[index as int].mark != DiffMark::Context);
                return true;
            }
            index += 1;
        }
        false
    }
}

/// Compact wiring edit with its common prefix and suffix shown only once.
#[derive(Clone, Debug, PartialEq, Eq)]
pub struct WordDiff {
    pub before_line: Option<usize>,
    pub after_line: Option<usize>,
    pub prefix: String,
    pub removed: String,
    pub added: String,
    pub suffix: String,
}

/// One styled row.
#[derive(Clone, Debug, PartialEq, Eq)]
pub enum ReviewRow {
    /// Current source; span marks distinguish edits from unchanged context.
    Current(SourceRow),
    /// Retained source whose layout changed, such as an indentation shift.
    Reflow(SourceRow),
    Removed(SourceRow),
    Added(SourceRow),
    LineEnding { before: Option<LineEnding>, after: Option<LineEnding> },
    /// First or last visible row of a move; only the first carries the old line number.
    Moved { before: Option<usize>, after: SourceRow },
    Wordwise(WordDiff),
    Elision(LineCoverage),
    /// File boundary included in the row stream so it scrolls with the source.
    FileBoundary,
}

/// Styled rows of one hunk.
#[derive(Clone, Debug, PartialEq, Eq)]
pub struct ReviewHunk {
    pub coverage: LineCoverage,
    pub rows: Vec<ReviewRow>,
}

/// Styled hunks in review-priority order, which may differ from source order.
#[derive(Clone, Debug, PartialEq, Eq)]
pub struct PresentedFile {
    pub path: String,
    /// Whether either source revision declares itself generated near its header.
    pub generated: bool,
    pub hunks: Vec<ReviewHunk>,
}

/// Bytes of all spans in order.
pub open spec fn spans_text(spans: Seq<SourceSpan>) -> Seq<u8>
    decreases spans.len(),
{
    if spans.len() == 0 {
        Seq::empty()
    } else {
        spans_text(spans.drop_last()) + encode_utf8(spans.last().text@)
    }
}

/// Mark of each byte of all spans in order.
pub open spec fn span_marks(spans: Seq<SourceSpan>) -> Seq<DiffMark>
    decreases spans.len(),
{
    if spans.len() == 0 {
        Seq::empty()
    } else {
        span_marks(spans.drop_last()) + Seq::new(
            encode_utf8(spans.last().text@).len(),
            |i: int| spans.last().mark,
        )
    }
}

/// Syntax class of each byte of all spans in order.
pub open spec fn span_classes(spans: Seq<SourceSpan>) -> Seq<SyntaxClass>
    decreases spans.len(),
{
    if spans.len() == 0 {
        Seq::empty()
    } else {
        span_classes(spans.drop_last()) + Seq::new(
            encode_utf8(spans.last().text@).len(),
            |i: int| spans.last().syntax,
        )
    }
}

/// Every span carries one of the two marks.
pub open spec fn marks_only(spans: Seq<SourceSpan>, mark: DiffMark) -> bool {
    forall|k: int|
        0 <= k < spans.len() ==> (#[trigger] spans[k]).mark == mark || spans[k].mark
            == DiffMark::Context
}

/// Encoding distributes over concatenation.
proof fn lemma_encode_concat(left: Seq<char>, right: Seq<char>)
    ensures
        encode_utf8(left + right) == encode_utf8(left) + encode_utf8(right),
    decreases left.len(),
{
    if left.len() == 0 {
        assert(left + right =~= right);
        assert(encode_utf8(left) + encode_utf8(right) =~= encode_utf8(right));
    } else {
        let rest = left.drop_first();
        assert((left + right).drop_first() =~= rest + right);
        lemma_encode_concat(rest, right);
        assert((left + right)[0] == left[0]);
        assert(encode_utf8(left + right) =~= encode_utf8(left) + encode_utf8(right));
    }
}

/// No span is empty, and two neighbours differ in color or emphasis.
pub open spec fn are_tight(spans: Seq<SourceSpan>) -> bool {
    &&& forall|k: int| 0 <= k < spans.len() ==> (#[trigger] spans[k]).text@.len() > 0
    &&& forall|j: int, k: int|
        0 <= j && k == j + 1 && k < spans.len() ==> (#[trigger] spans[j]).syntax != (
        #[trigger] spans[k]).syntax || spans[j].mark != spans[k].mark
}

/// Add text, joining it to the last span of the same color and emphasis.
fn push_span(spans: &mut Vec<SourceSpan>, text: &str, syntax: SyntaxClass, mark: DiffMark)
    ensures
        spans_text(final(spans)@) == spans_text(old(spans)@) + encode_utf8(text@),
        span_marks(final(spans)@) == span_marks(old(spans)@) + Seq::new(
            encode_utf8(text@).len(),
            |i: int| mark,
        ),
        span_classes(final(spans)@) == span_classes(old(spans)@) + Seq::new(
            encode_utf8(text@).len(),
            |i: int| syntax,
        ),
        are_tight(old(spans)@) ==> are_tight(final(spans)@),
        marks_only(old(spans)@, mark) ==> marks_only(final(spans)@, mark),
        forall|other: DiffMark|
            mark == DiffMark::Context && marks_only(old(spans)@, other) ==> #[trigger] marks_only(
                final(spans)@,
                other,
            ),
{
    if text.is_empty() {
        assert(text@ =~= Seq::<char>::empty());
        assert(encode_utf8(text@) =~= Seq::<u8>::empty());
        assert(spans_text(spans@) + encode_utf8(text@) =~= spans_text(spans@));
        assert(span_marks(spans@) + Seq::new(encode_utf8(text@).len(), |i: int| mark)
            =~= span_marks(spans@));
        assert(span_classes(spans@) + Seq::new(encode_utf8(text@).len(), |i: int| syntax)
            =~= span_classes(spans@));
        return ;
    }
    let ghost earlier = spans@;
    let count = spans.len();
    if count > 0 {
        let joins = spans[count - 1].syntax == syntax && spans[count - 1].mark == mark;
        if joins {
            match spans.pop() {
                Some(mut last) => {
                    let ghost old_text = last.text@;
                    last.text.append(text);
                    proof {
                        lemma_encode_concat(old_text, text@);
                        assert(spans@ =~= earlier.drop_last());
                    }
                    spans.push(last);
                    proof {
                        assert(spans@.drop_last() =~= earlier.drop_last());
                        assert(spans_text(spans@) =~= spans_text(earlier) + encode_utf8(text@));
                        assert(span_marks(spans@) =~= span_marks(earlier) + Seq::new(
                            encode_utf8(text@).len(),
                            |i: int| mark,
                        ));
                        assert(span_classes(spans@) =~= span_classes(earlier) + Seq::new(
                            encode_utf8(text@).len(),
                            |i: int| syntax,
                        ));
                        assert forall|k: int| 0 <= k < spans@.len() implies (
                        #[trigger] spans@[k]).mark == earlier[k].mark && spans@[k].syntax
                            == earlier[k].syntax && spans@[k].text@.len() >= earlier[k].text@.len() by {}
                        if are_tight(earlier) {
                            assert forall|j: int, k: int|
                                0 <= j && k == j + 1 && k < spans@.len() implies (
                            #[trigger] spans@[j]).syntax != (#[trigger] spans@[k]).syntax
                                || spans@[j].mark != spans@[k].mark by {
                                assert(earlier[j].syntax != earlier[k].syntax || earlier[j].mark
                                    != earlier[k].mark);
                            }
                        }
                    }
                },
                None => {},
            }
            return ;
        }
    }
    spans.push(SourceSpan { text: text.to_owned(), syntax, mark });
    proof {
        assert(spans@.drop_last() =~= earlier);
    }
}

/// The leaf covers the segment.
pub open spec fn leaf_covers(tree: SyntaxTree, leaf: int, segment: Span) -> bool {
    tree.nodes@[leaf].bytes.start <= segment.start && tree.nodes@[leaf].bytes.end >= segment.end
}

/// Class of the first leaf that covers a segment; plain where none does.
pub open spec fn class_of(tree: SyntaxTree, leaves: Seq<NodeId>, segment: Span) -> SyntaxClass
    decreases leaves.len(),
{
    if leaves.len() == 0 {
        SyntaxClass::Plain
    } else if leaf_covers(tree, leaves[0] as int, segment) {
        match tree.nodes@[leaves[0] as int].leaf {
            Some(leaf) => leaf.syntax,
            None => SyntaxClass::Plain,
        }
    } else {
        class_of(tree, leaves.skip(1), segment)
    }
}

/// Class of the leaf that covers a segment.
fn segment_class(tree: &SyntaxTree, leaves: &Vec<NodeId>, segment: Span) -> (syntax: SyntaxClass)
    requires
        forall|k: int| 0 <= k < leaves@.len() ==> (#[trigger] leaves@[k]) < tree.nodes@.len(),
    ensures
        syntax == class_of(*tree, leaves@, segment),
{
    let mut index: usize = 0;
    assert(leaves@.skip(0) =~= leaves@);
    while index < leaves.len()
        invariant
            index <= leaves@.len(),
            forall|k: int| 0 <= k < leaves@.len() ==> (#[trigger] leaves@[k]) < tree.nodes@.len(),
            class_of(*tree, leaves@, segment) == class_of(
                *tree,
                leaves@.skip(index as int),
                segment,
            ),
        decreases leaves@.len() - index,
    {
        let node = &tree.nodes[leaves[index]];
        proof {
            let rest = leaves@.skip(index as int);
            assert(rest[0] == leaves@[index as int]);
            assert(rest.skip(1) =~= leaves@.skip(index + 1));
        }
        if node.bytes.start <= segment.start && node.bytes.end >= segment.end {
            return match node.leaf {
                Some(leaf) => leaf.syntax,
                None => SyntaxClass::Plain,
            };
        }
        index += 1;
    }
    SyntaxClass::Plain
}

/// Whether a changed range covers a segment.
fn segment_changed(changed: &Vec<Span>, segment: Span) -> (result: bool)
    ensures
        result == exists|k: int|
            0 <= k < changed@.len() && (#[trigger] changed@[k]).start <= segment.start
                && changed@[k].end >= segment.end,
{
    let mut index: usize = 0;
    while index < changed.len()
        invariant
            index <= changed@.len(),
            forall|k: int|
                0 <= k < index ==> !((#[trigger] changed@[k]).start <= segment.start
                    && changed@[k].end >= segment.end),
        decreases changed@.len() - index,
    {
        if changed[index].start <= segment.start && changed[index].end >= segment.end {
            assert(changed@[index as int].start <= segment.start);
            return true;
        }
        index += 1;
    }
    false
}

/// An offset moved into a range.
pub open spec fn moved_into(bytes: Span, offset: usize) -> usize {
    if offset < bytes.start {
        bytes.start
    } else if offset > bytes.end {
        bytes.end
    } else {
        offset
    }
}

/// The offset starts or ends the range, a leaf, or a change.
pub open spec fn is_cut(tree: SyntaxTree, changed: Seq<Span>, bytes: Span, offset: usize) -> bool {
    ||| offset == bytes.start
    ||| offset == bytes.end
    ||| exists|i: int|
        0 <= i < tree.nodes@.len() && (#[trigger] tree.nodes@[i]).leaf is Some && (
        tree.nodes@[i].bytes.start == offset || tree.nodes@[i].bytes.end == offset)
    ||| exists|k: int|
        0 <= k < changed.len() && ((#[trigger] changed[k]).start == offset || changed[k].end
            == offset)
}

/// The ends of the first changes that overlap the range, moved into it, are boundaries.
spec fn cuts_changes(boundaries: Seq<usize>, changed: Seq<Span>, bytes: Span, end: int) -> bool {
    forall|k: int|
        0 <= k < end && (#[trigger] changed[k]).start < bytes.end && bytes.start < changed[k].end
            ==> boundaries.contains(moved_into(bytes, changed[k].start)) && boundaries.contains(
            moved_into(bytes, changed[k].end),
        )
}

/// The ends of the first leaves, moved into the range, are boundaries.
spec fn cuts_leaves(
    boundaries: Seq<usize>,
    tree: SyntaxTree,
    leaves: Seq<NodeId>,
    bytes: Span,
    end: int,
) -> bool {
    forall|k: int|
        #![trigger leaves[k]]
        0 <= k < end ==> boundaries.contains(
            moved_into(bytes, tree.nodes@[leaves[k] as int].bytes.start),
        ) && boundaries.contains(moved_into(bytes, tree.nodes@[leaves[k] as int].bytes.end))
}

/// Offsets at which a row changes color or emphasis.
fn row_boundaries(
    tree: &SyntaxTree,
    leaves: &Vec<NodeId>,
    changed: &Vec<Span>,
    bytes: Span,
) -> (boundaries: Vec<usize>)
    requires
        bytes.start <= bytes.end,
        forall|k: int|
            0 <= k < leaves@.len() ==> (#[trigger] leaves@[k]) < tree.nodes@.len()
                && tree.nodes@[leaves@[k] as int].leaf is Some,
    ensures
        ascending(boundaries@),
        boundaries@.contains(bytes.start),
        boundaries@.contains(bytes.end),
        forall|k: int|
            0 <= k < boundaries@.len() ==> bytes.start <= (#[trigger] boundaries@[k]) <= bytes.end
                && is_cut(*tree, changed@, bytes, boundaries@[k]),
        cuts_changes(boundaries@, changed@, bytes, changed@.len() as int),
        cuts_leaves(boundaries@, *tree, leaves@, bytes, leaves@.len() as int),
{
    let mut boundaries: Vec<usize> = Vec::new();
    insert_ascending(&mut boundaries, bytes.start);
    insert_ascending(&mut boundaries, bytes.end);
    let mut index: usize = 0;
    proof {
        assert forall|k: int| 0 <= k < boundaries@.len() implies bytes.start <= (
        #[trigger] boundaries@[k]) <= bytes.end && is_cut(
            *tree,
            changed@,
            bytes,
            boundaries@[k],
        ) by {
            assert(boundaries@.contains(boundaries@[k]));
        }
    }
    while index < leaves.len()
        invariant
            bytes.start <= bytes.end,
            index <= leaves@.len(),
            forall|k: int|
                0 <= k < leaves@.len() ==> (#[trigger] leaves@[k]) < tree.nodes@.len()
                    && tree.nodes@[leaves@[k] as int].leaf is Some,
            ascending(boundaries@),
            boundaries@.contains(bytes.start),
            boundaries@.contains(bytes.end),
            forall|k: int|
                0 <= k < boundaries@.len() ==> bytes.start <= (#[trigger] boundaries@[k])
                    <= bytes.end && is_cut(*tree, changed@, bytes, boundaries@[k]),
            cuts_leaves(boundaries@, *tree, leaves@, bytes, index as int),
        decreases leaves@.len() - index,
    {
        let node = &tree.nodes[leaves[index]];
        assert(tree.nodes@[leaves@[index as int] as int].leaf is Some);
        add_boundary(
            &mut boundaries,
            bytes,
            node.bytes.start,
            Ghost(*tree),
            Ghost(changed@),
        );
        add_boundary(&mut boundaries, bytes, node.bytes.end, Ghost(*tree), Ghost(changed@));
        index += 1;
    }
    let mut position: usize = 0;
    while position < changed.len()
        invariant
            bytes.start <= bytes.end,
            position <= changed@.len(),
            ascending(boundaries@),
            boundaries@.contains(bytes.start),
            boundaries@.contains(bytes.end),
            forall|k: int|
                0 <= k < boundaries@.len() ==> bytes.start <= (#[trigger] boundaries@[k])
                    <= bytes.end && is_cut(*tree, changed@, bytes, boundaries@[k]),
            cuts_changes(boundaries@, changed@, bytes, position as int),
            cuts_leaves(boundaries@, *tree, leaves@, bytes, leaves@.len() as int),
        decreases changed@.len() - position,
    {
        assert(changed@[position as int] == changed@[position as int]);
        if ranges_overlap(&changed[position], &bytes) {
            add_boundary(
                &mut boundaries,
                bytes,
                changed[position].start,
                Ghost(*tree),
                Ghost(changed@),
            );
            add_boundary(
                &mut boundaries,
                bytes,
                changed[position].end,
                Ghost(*tree),
                Ghost(changed@),
            );
        }
        position += 1;
    }
    boundaries
}

/// Add an offset, moved into the row.
fn add_boundary(
    boundaries: &mut Vec<usize>,
    bytes: Span,
    offset: usize,
    Ghost(tree): Ghost<SyntaxTree>,
    Ghost(changed): Ghost<Seq<Span>>,
)
    requires
        bytes.start <= bytes.end,
        is_cut(tree, changed, bytes, offset),
        ascending(old(boundaries)@),
        forall|k: int|
            0 <= k < old(boundaries)@.len() ==> bytes.start <= (#[trigger] old(boundaries)@[k])
                <= bytes.end && is_cut(tree, changed, bytes, old(boundaries)@[k]),
    ensures
        ascending(final(boundaries)@),
        forall|other: usize| #[trigger]
            final(boundaries)@.contains(other) <==> old(boundaries)@.contains(other) || other
                == moved_into(bytes, offset),
        forall|k: int|
            0 <= k < final(boundaries)@.len() ==> bytes.start <= (#[trigger] final(boundaries)@[k])
                <= bytes.end && is_cut(tree, changed, bytes, final(boundaries)@[k]),
{
    let value = if offset < bytes.start {
        bytes.start
    } else if offset > bytes.end {
        bytes.end
    } else {
        offset
    };
    let ghost earlier = boundaries@;
    insert_ascending(boundaries, value);
    proof {
        assert forall|k: int| 0 <= k < boundaries@.len() implies bytes.start <= (
        #[trigger] boundaries@[k]) <= bytes.end && is_cut(
            tree,
            changed,
            bytes,
            boundaries@[k],
        ) by {
            let other = boundaries@[k];
            assert(boundaries@.contains(other));
            if other != value {
                assert(earlier.contains(other));
                let at = choose|at: int| 0 <= at < earlier.len() && earlier[at] == other;
                assert(bytes.start <= earlier[at] <= bytes.end);
            }
        }
    }
}

/// A change covers the byte.
pub open spec fn is_changed_byte(changed: Seq<Span>, byte: int) -> bool {
    exists|k: int| 0 <= k < changed.len() && (#[trigger] changed[k]).has(byte)
}

/// Leaves and changes start and end between characters.
pub open spec fn cuts_characters(tree: SyntaxTree, changed: Seq<Span>) -> bool {
    &&& forall|i: int|
        0 <= i < tree.nodes@.len() && (#[trigger] tree.nodes@[i]).leaf is Some ==> is_char_boundary(
            tree.source.data(),
            tree.nodes@[i].bytes.start as int,
        ) && is_char_boundary(tree.source.data(), tree.nodes@[i].bytes.end as int)
    &&& forall|k: int|
        0 <= k < changed.len() ==> is_char_boundary(
            tree.source.data(),
            (#[trigger] changed[k]).start as int,
        ) && is_char_boundary(tree.source.data(), changed[k].end as int)
}

/// Only changed bytes are marked; all of them are where changes and leaves respect characters.
pub open spec fn marks_changes(
    tree: SyntaxTree,
    start: int,
    marks: Seq<DiffMark>,
    changed: Seq<Span>,
    mark: DiffMark,
) -> bool {
    &&& forall|i: int|
        0 <= i < marks.len() && (#[trigger] marks[i]) != DiffMark::Context ==> marks[i] == mark
            && is_changed_byte(changed, start + i)
    &&& cuts_characters(tree, changed) ==> forall|i: int|
        0 <= i < marks.len() && is_changed_byte(changed, start + i) ==> (#[trigger] marks[i]) == mark
}

/// The spans spell the row, and carry no other mark.
pub open spec fn row_spells(source: Source, row: SourceRow, mark: DiffMark) -> bool {
    let line = source.line_seq()[row.number - 1];
    &&& is_line(row.number, source.line_seq().len() as int)
    &&& spans_text(row.spans@) == source.line_content(line)
    &&& marks_only(row.spans@, mark)
}

/// The byte lies in a leaf of the class.
pub open spec fn has_class(tree: SyntaxTree, byte: int, class: SyntaxClass) -> bool {
    exists|n: int|
        0 <= n < tree.nodes@.len() && (#[trigger] tree.nodes@[n]).bytes.has(byte)
            && tree.nodes@[n].leaf is Some && tree.nodes@[n].leaf->0.syntax == class
}

/// The byte has the class of the first leaf that holds it, and none where no leaf does.
pub open spec fn is_first_class(
    tree: SyntaxTree,
    leaves: Seq<NodeId>,
    byte: int,
    class: SyntaxClass,
) -> bool {
    ||| exists|k: int|
        0 <= k < leaves.len() && tree.nodes@[(#[trigger] leaves[k]) as int].bytes.has(byte)
            && tree.nodes@[leaves[k] as int].leaf is Some && tree.nodes@[leaves[k] as int].leaf->0.syntax
            == class && forall|l: int|
            0 <= l < k ==> !tree.nodes@[(#[trigger] leaves[l]) as int].bytes.has(byte)
    ||| class == SyntaxClass::Plain && forall|l: int|
        0 <= l < leaves.len() ==> !tree.nodes@[(#[trigger] leaves[l]) as int].bytes.has(byte)
}

/// Only bytes in a leaf are colored, by its class; all are colored by the first leaf that holds
/// them where changes and leaves respect characters.
pub open spec fn classes_bytes(
    tree: SyntaxTree,
    leaves: Seq<NodeId>,
    start: int,
    classes: Seq<SyntaxClass>,
    changed: Seq<Span>,
) -> bool {
    &&& forall|i: int|
        0 <= i < classes.len() && (#[trigger] classes[i]) != SyntaxClass::Plain ==> has_class(
            tree,
            start + i,
            classes[i],
        )
    &&& cuts_characters(tree, changed) ==> forall|i: int|
        0 <= i < classes.len() ==> is_first_class(tree, leaves, start + i, #[trigger] classes[i])
}

/// The row is colored by the leaves that overlap its line.
#[verifier::opaque]
pub open spec fn row_classes(tree: SyntaxTree, row: SourceRow, changed: Seq<Span>) -> bool {
    let line = tree.source.line_seq()[row.number - 1];
    &&& span_classes(row.spans@).len() == tree.source.line_content(line).len()
    &&& exists|low: int, high: int| #[trigger]
        tree.is_leaf_run(line.content_bytes, low, high) && classes_bytes(
            tree,
            tree.leaf_seq().subrange(low, high),
            line.content_bytes.start as int,
            span_classes(row.spans@),
            changed,
        )
}

/// The row carries the mark on the changed bytes of its line.
pub open spec fn row_marks(
    tree: SyntaxTree,
    row: SourceRow,
    changed: Seq<Span>,
    mark: DiffMark,
) -> bool {
    let line = tree.source.line_seq()[row.number - 1];
    &&& span_marks(row.spans@).len() == tree.source.line_content(line).len()
    &&& marks_changes(
        tree,
        line.content_bytes.start as int,
        span_marks(row.spans@),
        changed,
        mark,
    )
    &&& changed.len() == 0 ==> marks_only(row.spans@, DiffMark::Context)
    &&& row_classes(tree, row, changed)
}

/// Split one source line at syntax and diff-mark boundaries.
pub fn source_row(tree: &SyntaxTree, number: usize, changed: &Vec<Span>, mark: DiffMark) -> (row:
    SourceRow)
    requires
        tree.wf(),
        is_line(number, tree.source.line_seq().len() as int),
    ensures
        row.number == number,
        row_spells(tree.source, row, mark),
        changed@.len() == 0 ==> marks_only(row.spans@, DiffMark::Context),
        are_tight(row.spans@),
        row_marks(*tree, row, changed@, mark),
{
    let bytes = tree.source.lines()[number - 1].content_bytes;
    proof {
        assert(is_line_of(tree.source.data(), tree.source.line_seq()[number - 1]));
        tree.source.lemma_line_boundaries(number - 1);
    }
    let leaves = tree.leaf_ids_in(bytes);
    let boundaries = row_boundaries(tree, &leaves, changed, bytes);
    let ghost data = tree.source.data();
    let mut spans: Vec<SourceSpan> = Vec::new();
    let mut start = bytes.start;
    let mut index: usize = 0;
    proof {
        assert(data.subrange(bytes.start as int, bytes.start as int) =~= Seq::<u8>::empty());
    }
    while index < boundaries.len()
        invariant
            tree.wf(),
            data == tree.source.data(),
            bytes.start <= start <= bytes.end <= data.len(),
            index <= boundaries@.len(),
            ascending(boundaries@),
            boundaries@.contains(bytes.end),
            forall|k: int| 0 <= k < leaves@.len() ==> (#[trigger] leaves@[k]) < tree.nodes@.len(),
            forall|k: int|
                0 <= k < boundaries@.len() ==> bytes.start <= (#[trigger] boundaries@[k])
                    <= bytes.end,
            is_char_boundary(data, bytes.start as int),
            is_char_boundary(data, bytes.end as int),
            is_char_boundary(data, start as int),
            cuts_changes(boundaries@, changed@, bytes, changed@.len() as int),
            forall|k: int|
                0 <= k < boundaries@.len() ==> is_cut(
                    *tree,
                    changed@,
                    bytes,
                    #[trigger] boundaries@[k],
                ),
            are_tight(spans@),
            span_marks(spans@).len() == start - bytes.start,
            marks_changes(*tree, bytes.start as int, span_marks(spans@), changed@, mark),
            cuts_leaves(boundaries@, *tree, leaves@, bytes, leaves@.len() as int),
            forall|k: int|
                0 <= k < leaves@.len() ==> tree.nodes@[(#[trigger] leaves@[k]) as int].leaf is Some,
            span_classes(spans@).len() == start - bytes.start,
            classes_bytes(*tree, leaves@, bytes.start as int, span_classes(spans@), changed@),
            cuts_characters(*tree, changed@) ==> forall|k: int|
                0 <= k < index ==> (#[trigger] boundaries@[k]) <= start,
            spans_text(spans@) == data.subrange(bytes.start as int, start as int),
            marks_only(spans@, mark),
            changed@.len() == 0 ==> marks_only(spans@, DiffMark::Context),
            forall|k: int| index <= k < boundaries@.len() ==> start <= (#[trigger] boundaries@[k]),
            index == boundaries@.len() ==> start == bytes.end,
        decreases boundaries@.len() - index,
    {
        let end = boundaries[index];
        assert(boundaries@[index as int] == end);
        proof {
            assert(is_cut(*tree, changed@, bytes, end));
        }
        if start < end {
            if let Some(text) = tree.source.slice(start, end) {
                let ghost earlier = span_marks(spans@);
                let ghost earlier_classes = span_classes(spans@);
                let segment = Span { start, end };
                let syntax = segment_class(tree, &leaves, segment);
                let is_changed = segment_changed(changed, segment);
                let emphasis = if is_changed {
                    mark
                } else {
                    DiffMark::Context
                };
                push_span(&mut spans, text, syntax, emphasis);
                proof {
                    assert(encode_utf8(text@).len() == end - start);
                    lemma_segment_marked(
                        *tree,
                        boundaries@,
                        index as int,
                        bytes,
                        start,
                        earlier,
                        span_marks(spans@),
                        changed@,
                        mark,
                        is_changed,
                    );
                    lemma_segment_classed(
                        *tree,
                        leaves@,
                        boundaries@,
                        index as int,
                        bytes,
                        start,
                        earlier_classes,
                        span_classes(spans@),
                        changed@,
                    );
                    assert(data.subrange(bytes.start as int, end as int) =~= data.subrange(
                        bytes.start as int,
                        start as int,
                    ) + data.subrange(start as int, end as int));
                }
                start = end;
            }
        }
        proof {
            assert forall|k: int| index + 1 <= k < boundaries@.len() implies start <= (
            #[trigger] boundaries@[k]) by {
                assert(boundaries@[index as int] < boundaries@[k]);
            }
            if index + 1 == boundaries@.len() {
                let at = choose|at: int|
                    0 <= at < boundaries@.len() && boundaries@[at] == bytes.end;
                if at < index {
                    assert(boundaries@[at] < boundaries@[index as int]);
                }
                assert(end == bytes.end);
            }
        }
        index += 1;
    }
    let row = SourceRow { number, spans };
    proof {
        reveal(row_classes);
        let (low, high) = choose|low: int, high: int| #[trigger]
            tree.is_leaf_run(bytes, low, high) && leaves@ == tree.leaf_seq().subrange(low, high);
        assert(tree.is_leaf_run(bytes, low, high));
    }
    row
}

/// The class of a segment is that of the first leaf that covers it.
proof fn lemma_first_covers(tree: SyntaxTree, leaves: Seq<NodeId>, segment: Span) -> (first: int)
    ensures
        0 <= first <= leaves.len(),
        forall|l: int|
            0 <= l < first ==> !leaf_covers(tree, (#[trigger] leaves[l]) as int, segment),
        first < leaves.len() ==> leaf_covers(tree, leaves[first] as int, segment) && (
        tree.nodes@[leaves[first] as int].leaf is Some ==> class_of(tree, leaves, segment)
            == tree.nodes@[leaves[first] as int].leaf->0.syntax),
        first == leaves.len() ==> class_of(tree, leaves, segment) == SyntaxClass::Plain,
    decreases leaves.len(),
{
    if leaves.len() == 0 {
        0
    } else if leaf_covers(tree, leaves[0] as int, segment) {
        0
    } else {
        let rest = leaves.skip(1);
        let first = lemma_first_covers(tree, rest, segment);
        assert forall|l: int| 0 <= l < first + 1 implies !leaf_covers(
            tree,
            (#[trigger] leaves[l]) as int,
            segment,
        ) by {
            if l > 0 {
                assert(rest[l - 1] == leaves[l]);
            }
        }
        first + 1
    }
}

/// Coloring one more segment between two boundaries.
proof fn lemma_segment_classed(
    tree: SyntaxTree,
    leaves: Seq<NodeId>,
    boundaries: Seq<usize>,
    index: int,
    bytes: Span,
    start: usize,
    earlier: Seq<SyntaxClass>,
    classes: Seq<SyntaxClass>,
    changed: Seq<Span>,
)
    requires
        0 <= index < boundaries.len(),
        bytes.start <= start < boundaries[index] <= bytes.end,
        ascending(boundaries),
        cuts_leaves(boundaries, tree, leaves, bytes, leaves.len() as int),
        forall|k: int|
            0 <= k < leaves.len() ==> (#[trigger] leaves[k]) < tree.nodes@.len()
                && tree.nodes@[leaves[k] as int].leaf is Some,
        cuts_characters(tree, changed) ==> forall|k: int|
            0 <= k < index ==> (#[trigger] boundaries[k]) <= start,
        earlier.len() == start - bytes.start,
        classes_bytes(tree, leaves, bytes.start as int, earlier, changed),
        classes == earlier + Seq::new(
            (boundaries[index] - start) as nat,
            |i: int| class_of(tree, leaves, Span { start, end: boundaries[index] }),
        ),
    ensures
        classes_bytes(tree, leaves, bytes.start as int, classes, changed),
{
    let end = boundaries[index];
    let segment = Span { start, end };
    let first = lemma_first_covers(tree, leaves, segment);
    let class = class_of(tree, leaves, segment);
    assert forall|i: int|
        0 <= i < classes.len() && (#[trigger] classes[i]) != SyntaxClass::Plain implies has_class(
        tree,
        bytes.start + i,
        classes[i],
    ) by {
        if i < earlier.len() {
            assert(classes[i] == earlier[i]);
        } else {
            assert(tree.nodes@[leaves[first] as int].bytes.has(bytes.start + i));
        }
    }
    if cuts_characters(tree, changed) {
        assert forall|i: int| 0 <= i < classes.len() implies is_first_class(
            tree,
            leaves,
            bytes.start + i,
            #[trigger] classes[i],
        ) by {
            let byte = bytes.start + i;
            if i < earlier.len() {
                assert(classes[i] == earlier[i]);
            } else {
                assert(classes[i] == class);
                assert forall|l: int|
                    0 <= l < leaves.len() && tree.nodes@[(
                    #[trigger] leaves[l]) as int].bytes.has(byte) implies leaf_covers(
                    tree,
                    leaves[l] as int,
                    segment,
                ) by {
                    lemma_boundaries_apart(
                        boundaries,
                        index,
                        bytes,
                        start,
                        tree.nodes@[leaves[l] as int].bytes,
                        byte,
                    );
                }
                if first < leaves.len() {
                    assert(tree.nodes@[leaves[first] as int].bytes.has(byte));
                }
            }
        }
    }
}

/// A range with its ends on boundaries that holds a byte of a segment covers the segment.
proof fn lemma_boundaries_apart(
    boundaries: Seq<usize>,
    index: int,
    bytes: Span,
    start: usize,
    range: Span,
    byte: int,
)
    requires
        0 <= index < boundaries.len(),
        bytes.start <= start < boundaries[index] <= bytes.end,
        ascending(boundaries),
        boundaries.contains(moved_into(bytes, range.start)),
        boundaries.contains(moved_into(bytes, range.end)),
        forall|k: int| 0 <= k < index ==> (#[trigger] boundaries[k]) <= start,
        range.has(byte),
        start <= byte < boundaries[index],
    ensures
        range.start <= start,
        range.end >= boundaries[index],
{
    let end = boundaries[index];
    let first = moved_into(bytes, range.start);
    let last = moved_into(bytes, range.end);
    let f = choose|f: int| 0 <= f < boundaries.len() && boundaries[f] == first;
    let l = choose|l: int| 0 <= l < boundaries.len() && boundaries[l] == last;
    if f > index {
        assert(boundaries[index] < boundaries[f]);
    }
    if f < index {
        assert(boundaries[f] <= start);
    }
    if l < index {
        assert(boundaries[l] <= start);
    } else if l > index {
        assert(boundaries[index] < boundaries[l]);
    }
}

/// Where leaves stand in order and start and end between characters, every byte of a row is shown
/// in the class of the leaf that holds it, and plain where no leaf does, whatever is marked as
/// changed.
pub proof fn law_rows_are_colored_by_leaves(
    tree: SyntaxTree,
    row: SourceRow,
    changed: Seq<Span>,
    i: int,
)
    requires
        tree.wf(),
        is_line(row.number, tree.source.line_seq().len() as int),
        row_classes(tree, row, changed),
        tree.leaves_in_order(),
        cuts_characters(tree, changed),
        0 <= i < span_classes(row.spans@).len(),
    ensures
        span_classes(row.spans@).len() == tree.source.line_content(
            tree.source.line_seq()[row.number - 1],
        ).len(),
        ({
            let byte = tree.source.line_seq()[row.number - 1].content_bytes.start + i;
            let class = span_classes(row.spans@)[i];
            &&& forall|n: int|
                0 <= n < tree.nodes@.len() && (#[trigger] tree.nodes@[n]).leaf is Some
                    && tree.nodes@[n].bytes.has(byte) ==> class == tree.nodes@[n].leaf->0.syntax
            &&& (forall|n: int|
                0 <= n < tree.nodes@.len() && (#[trigger] tree.nodes@[n]).leaf is Some
                    ==> !tree.nodes@[n].bytes.has(byte)) ==> class == SyntaxClass::Plain
        }),
{
    reveal(row_classes);
    let line = tree.source.line_seq()[row.number - 1];
    let bytes = line.content_bytes;
    let byte = bytes.start + i;
    let classes = span_classes(row.spans@);
    let class = classes[i];
    assert(is_line_of(tree.source.data(), line));
    let (low, high) = choose|low: int, high: int| #[trigger]
        tree.is_leaf_run(line.content_bytes, low, high) && classes_bytes(
            tree,
            tree.leaf_seq().subrange(low, high),
            line.content_bytes.start as int,
            span_classes(row.spans@),
            changed,
        );
    let leaves = tree.leaf_seq().subrange(low, high);
    assert(is_first_class(tree, leaves, byte, class));
    lemma_leaf_positions(tree.nodes@, tree.nodes@.len() as int);
    assert forall|n: int|
        0 <= n < tree.nodes@.len() && (#[trigger] tree.nodes@[n]).leaf is Some
            && tree.nodes@[n].bytes.has(byte) implies class == tree.nodes@[n].leaf->0.syntax by {
        assert(tree.leaf_seq().contains(n as usize));
        let at = choose|at: int|
            0 <= at < tree.leaf_seq().len() && tree.leaf_seq()[at] == n as usize;
        assert(tree.leaf_at(at) == tree.nodes@[n]);
        tree.law_overlapping_leaves_form_a_run(bytes, low, high, at);
        assert(leaves[at - low] == n as usize);
        assert forall|k: int|
            0 <= k < leaves.len() && tree.nodes@[(#[trigger] leaves[k]) as int].bytes.has(
                byte,
            ) implies k == at - low by {
            assert(tree.leaf_at(low + k) == tree.nodes@[leaves[k] as int]);
            if low + k < at {
                assert(tree.leaf_at(low + k).bytes.end <= tree.leaf_at(at).bytes.start);
            } else if low + k > at {
                assert(tree.leaf_at(at).bytes.end <= tree.leaf_at(low + k).bytes.start);
            }
        }
    }
}

/// Marking one more segment between two boundaries.
proof fn lemma_segment_marked(
    tree: SyntaxTree,
    boundaries: Seq<usize>,
    index: int,
    bytes: Span,
    start: usize,
    earlier: Seq<DiffMark>,
    marks: Seq<DiffMark>,
    changed: Seq<Span>,
    mark: DiffMark,
    is_changed: bool,
)
    requires
        0 <= index < boundaries.len(),
        bytes.start <= start < boundaries[index] <= bytes.end,
        ascending(boundaries),
        cuts_changes(boundaries, changed, bytes, changed.len() as int),
        cuts_characters(tree, changed) ==> forall|k: int|
            0 <= k < index ==> (#[trigger] boundaries[k]) <= start,
        earlier.len() == start - bytes.start,
        marks_changes(tree, bytes.start as int, earlier, changed, mark),
        is_changed == exists|k: int|
            0 <= k < changed.len() && (#[trigger] changed[k]).start <= start && changed[k].end
                >= boundaries[index],
        marks == earlier + Seq::new(
            (boundaries[index] - start) as nat,
            |i: int|
                if is_changed {
                    mark
                } else {
                    DiffMark::Context
                },
        ),
    ensures
        marks_changes(tree, bytes.start as int, marks, changed, mark),
{
    let end = boundaries[index];
    assert forall|i: int|
        0 <= i < marks.len() && (#[trigger] marks[i]) != DiffMark::Context implies marks[i] == mark
        && is_changed_byte(changed, bytes.start + i) by {
        if i < earlier.len() {
            assert(marks[i] == earlier[i]);
        } else {
            let k = choose|k: int|
                0 <= k < changed.len() && (#[trigger] changed[k]).start <= start && changed[k].end
                    >= end;
            assert(changed[k].has(bytes.start + i));
        }
    }
    if cuts_characters(tree, changed) {
        assert forall|i: int|
            0 <= i < marks.len() && is_changed_byte(changed, bytes.start + i) implies (
        #[trigger] marks[i]) == mark by {
            if i < earlier.len() {
                assert(marks[i] == earlier[i]);
            } else {
                let byte = bytes.start + i;
                let k = choose|k: int| 0 <= k < changed.len() && (#[trigger] changed[k]).has(byte);
                let first = moved_into(bytes, changed[k].start);
                let last = moved_into(bytes, changed[k].end);
                assert(boundaries.contains(first) && boundaries.contains(last));
                let f = choose|f: int| 0 <= f < boundaries.len() && boundaries[f] == first;
                let l = choose|l: int| 0 <= l < boundaries.len() && boundaries[l] == last;
                if f >= index {
                    if f > index {
                        assert(boundaries[index] < boundaries[f]);
                    }
                }
                assert(first <= start);
                if l < index {
                    assert(boundaries[l] <= start);
                } else if l > index {
                    assert(boundaries[index] < boundaries[l]);
                }
                assert(last >= end);
                assert(changed[k].start <= start && changed[k].end >= end);
            }
        }
    }
}

/// The longest shared prefix and, after it, the longest shared suffix.
pub open spec fn trims(before: Seq<char>, after: Seq<char>, prefix: int, suffix: int) -> bool {
    &&& 0 <= prefix
    &&& 0 <= suffix
    &&& prefix + suffix <= before.len()
    &&& prefix + suffix <= after.len()
    &&& before.take(prefix) == after.take(prefix)
    &&& before.skip(before.len() - suffix) == after.skip(after.len() - suffix)
    &&& prefix == before.len() || prefix == after.len() || before[prefix] != after[prefix]
    &&& prefix + suffix == before.len() || prefix + suffix == after.len() || before[before.len()
        - suffix - 1] != after[after.len() - suffix - 1]
}

/// Lengths of the shared prefix and suffix.
pub fn changed_sequence_ranges(before: &Vec<char>, after: &Vec<char>) -> (affixes: (usize, usize))
    ensures
        trims(before@, after@, affixes.0 as int, affixes.1 as int),
{
    let mut prefix: usize = 0;
    while prefix < before.len() && prefix < after.len() && before[prefix] == after[prefix]
        invariant
            prefix <= before@.len(),
            prefix <= after@.len(),
            forall|k: int| 0 <= k < prefix ==> before@[k] == after@[k],
        decreases before@.len() - prefix,
    {
        prefix += 1;
    }
    let mut suffix: usize = 0;
    assert(before@.skip(before@.len() as int) =~= after@.skip(after@.len() as int));
    while suffix < before.len() - prefix && suffix < after.len() - prefix && before[before.len() - 1
        - suffix] == after[after.len() - 1 - suffix]
        invariant
            prefix + suffix <= before@.len(),
            prefix + suffix <= after@.len(),
            before@.skip(before@.len() - suffix) == after@.skip(after@.len() - suffix),
        decreases before@.len() - suffix,
    {
        proof {
            let left = before@.skip(before@.len() - suffix - 1);
            let right = after@.skip(after@.len() - suffix - 1);
            assert(left =~= seq![left[0]] + before@.skip(before@.len() - suffix));
            assert(right =~= seq![right[0]] + after@.skip(after@.len() - suffix));
        }
        suffix += 1;
    }
    proof {
        assert(before@.take(prefix as int) =~= after@.take(prefix as int));
    }
    (prefix, suffix)
}

/// The parts of a word edit spell both revisions, with nothing shared left in the middle.
pub open spec fn word_spells(word: WordDiff, before: Seq<char>, after: Seq<char>) -> bool {
    &&& before == word.prefix@ + word.removed@ + word.suffix@
    &&& after == word.prefix@ + word.added@ + word.suffix@
    &&& word.removed@.len() > 0 && word.added@.len() > 0 ==> word.removed@[0] != word.added@[0]
        && word.removed@.last() != word.added@.last()
}

/// Split two texts into what they share and what differs.
pub fn word_parts(
    before_line: Option<usize>,
    after_line: Option<usize>,
    before: &str,
    after: &str,
) -> (word: WordDiff)
    ensures
        word.before_line == before_line,
        word.after_line == after_line,
        word_spells(word, before@, after@),
{
    let before_chars = chars_of(before);
    let after_chars = chars_of(after);
    let (prefix, suffix) = changed_sequence_ranges(&before_chars, &after_chars);
    let before_end = before_chars.len() - suffix;
    let after_end = after_chars.len() - suffix;
    let word = WordDiff {
        before_line,
        after_line,
        prefix: before.substring_char(0, prefix).to_owned(),
        removed: before.substring_char(prefix, before_end).to_owned(),
        added: after.substring_char(prefix, after_end).to_owned(),
        suffix: before.substring_char(before_end, before_chars.len()).to_owned(),
    };
    proof {
        assert(word.prefix@ =~= before@.take(prefix as int));
        assert(word.suffix@ =~= before@.skip(before_end as int));
        assert(after@.take(prefix as int) =~= after@.subrange(0, prefix as int));
        assert(before@ =~= word.prefix@ + word.removed@ + word.suffix@);
        assert(after@ =~= after@.take(prefix as int) + word.added@ + after@.skip(
            after_end as int,
        ));
    }
    word
}

/// The text is what a byte range of the source spells; nothing where there is no range, or where
/// the range does not start and end between characters of the source.
pub open spec fn spells_range(source: Source, bytes: Option<Span>, text: Seq<char>) -> bool {
    match bytes {
        Some(bytes) => if bytes.start <= bytes.end <= source.data().len() && is_char_boundary(
            source.data(),
            bytes.start as int,
        ) && is_char_boundary(source.data(), bytes.end as int) {
            encode_utf8(text) == source.data().subrange(bytes.start as int, bytes.end as int)
        } else {
            text.len() == 0
        },
        None => text.len() == 0,
    }
}

/// The word edit shows what the byte ranges of the change spell, the old text against the new.
pub open spec fn word_shows(
    before: Source,
    after: Source,
    change: CompactChange,
    word: WordDiff,
) -> bool {
    exists|removed: Seq<char>, added: Seq<char>| #[trigger]
        word_spells(word, removed, added) && spells_range(before, change.before_bytes, removed)
            && spells_range(after, change.after_bytes, added)
}

/// Text of a byte range, or nothing.
fn range_text(source: &Source, bytes: Option<Span>) -> (text: &str)
    ensures
        spells_range(*source, bytes, text@),
{
    match bytes {
        Some(bytes) => match source.slice(bytes.start, bytes.end) {
            Some(text) => text,
            None => {
                proof {
                    reveal_strlit("");
                }
                ""
            },
        },
        None => {
            proof {
                reveal_strlit("");
            }
            ""
        },
    }
}

fn word_diff(before: &SyntaxTree, after: &SyntaxTree, change: &CompactChange) -> (word: WordDiff)
    ensures
        word.before_line == change.before_line,
        word.after_line == change.after_line,
        word_shows(before.source, after.source, *change, word),
{
    let removed = range_text(&before.source, change.before_bytes);
    let added = range_text(&after.source, change.after_bytes);
    let word = word_parts(change.before_line, change.after_line, removed, added);
    assert(word_spells(word, removed@, added@));
    word
}

fn line_ending_row(change: LineEndingChange) -> (row: ReviewRow)
    ensures
        row is LineEnding,
        shape_of(row) == ending_shape(change),
{
    ReviewRow::LineEnding {
        before: match change.before {
            Some(endpoint) => Some(endpoint.ending),
            None => None,
        },
        after: match change.after {
            Some(endpoint) => Some(endpoint.ending),
            None => None,
        },
    }
}

/// Which terminator changes a row group shows.
#[derive(Clone, Copy)]
pub enum EndingsAt {
    /// Changes that only the before revision has.
    BeforeOnly,
    /// Changes with an after side.
    AnyAfter,
    /// Changes at one after line.
    Line(usize),
}

/// Add the selected terminator changes.
fn push_endings(rows: &mut Vec<ReviewRow>, endings: &Vec<LineEndingChange>, at: EndingsAt)
    ensures
        final(rows)@.len() >= old(rows)@.len(),
        forall|k: int| 0 <= k < old(rows)@.len() ==> (#[trigger] final(rows)@[k]) == old(rows)@[k],
        forall|k: int|
            old(rows)@.len() <= k < final(rows)@.len() ==> (#[trigger] final(rows)@[k]) is LineEnding,
        shapes_of(final(rows)@) == shapes_of(old(rows)@) + ending_shapes(endings@, at),
{
    let ghost start = rows@;
    proof {
        assert(endings@.take(0) =~= Seq::<LineEndingChange>::empty());
        assert(shapes_of(start) + ending_shapes(endings@.take(0), at) =~= shapes_of(start));
    }
    let mut index: usize = 0;
    while index < endings.len()
        invariant
            index <= endings@.len(),
            rows@.len() >= start.len(),
            forall|k: int| 0 <= k < start.len() ==> (#[trigger] rows@[k]) == start[k],
            forall|k: int|
                start.len() <= k < rows@.len() ==> (#[trigger] rows@[k]) is LineEnding,
            shapes_of(rows@) == shapes_of(start) + ending_shapes(endings@.take(index as int), at),
        decreases endings@.len() - index,
    {
        let ending = endings[index];
        let ghost earlier = rows@;
        let shown = match at {
            EndingsAt::BeforeOnly => ending.after.is_none(),
            EndingsAt::AnyAfter => ending.after.is_some(),
            EndingsAt::Line(line) => match ending.after {
                Some(endpoint) => endpoint.line == line,
                None => false,
            },
        };
        if shown {
            rows.push(line_ending_row(ending));
        }
        proof {
            assert(endings@.take(index + 1).drop_last() =~= endings@.take(index as int));
            assert(endings@.take(index + 1).last() == ending);
            if shown {
                lemma_shapes_push(earlier, rows@.last());
                assert(rows@ =~= earlier.push(rows@.last()));
                assert(shapes_of(rows@) =~= shapes_of(start) + ending_shapes(
                    endings@.take(index + 1),
                    at,
                ));
            }
        }
        index += 1;
    }
    assert(endings@.take(endings@.len() as int) =~= endings@);
}

/// Whether a terminator changes at an after line.
fn has_ending(endings: &Vec<LineEndingChange>, line: usize) -> (found: bool)
    ensures
        found == ends_at(endings@, line),
{
    let mut index: usize = 0;
    while index < endings.len()
        invariant
            index <= endings@.len(),
            forall|k: int|
                0 <= k < index ==> !((#[trigger] endings@[k]).after matches Some(endpoint)
                    && endpoint.line == line),
        decreases endings@.len() - index,
    {
        if let Some(endpoint) = endings[index].after {
            if endpoint.line == line {
                assert(endings@[index as int].after matches Some(endpoint) && endpoint.line
                    == line);
                return true;
            }
        }
        index += 1;
    }
    false
}

/// A row spells one source line of the right revision, with the right emphasis.
pub open spec fn row_ok(before: Source, after: Source, row: ReviewRow) -> bool {
    match row {
        ReviewRow::Current(row) => row_spells(after, row, DiffMark::Added),
        ReviewRow::Reflow(row) => row_spells(after, row, DiffMark::Context),
        ReviewRow::Removed(row) => row_spells(before, row, DiffMark::Removed),
        ReviewRow::Added(row) => row_spells(after, row, DiffMark::Added),
        ReviewRow::Moved { before, after: row } => row_spells(after, row, DiffMark::Context),
        _ => true,
    }
}

pub open spec fn rows_ok(before: Source, after: Source, rows: Seq<ReviewRow>) -> bool {
    forall|k: int| 0 <= k < rows.len() ==> row_ok(before, after, #[trigger] rows[k])
}

/// What a row shows, without its spelling.
pub enum RowShape {
    Current(usize),
    Reflow(usize),
    Removed(usize),
    Added(usize),
    LineEnding { before: Option<LineEnding>, after: Option<LineEnding> },
    Moved { before: Option<usize>, after: usize },
    Wordwise { before: Option<usize>, after: Option<usize> },
    Elision(LineCoverage),
    FileBoundary,
}

/// What a row shows.
pub open spec fn shape_of(row: ReviewRow) -> RowShape {
    match row {
        ReviewRow::Current(row) => RowShape::Current(row.number),
        ReviewRow::Reflow(row) => RowShape::Reflow(row.number),
        ReviewRow::Removed(row) => RowShape::Removed(row.number),
        ReviewRow::Added(row) => RowShape::Added(row.number),
        ReviewRow::LineEnding { before, after } => RowShape::LineEnding { before, after },
        ReviewRow::Moved { before, after } => RowShape::Moved { before, after: after.number },
        ReviewRow::Wordwise(word) => RowShape::Wordwise {
            before: word.before_line,
            after: word.after_line,
        },
        ReviewRow::Elision(coverage) => RowShape::Elision(coverage),
        ReviewRow::FileBoundary => RowShape::FileBoundary,
    }
}

/// What rows show.
pub open spec fn shapes_of(rows: Seq<ReviewRow>) -> Seq<RowShape> {
    rows.map_values(|row: ReviewRow| shape_of(row))
}

/// One more row shows one more thing.
proof fn lemma_shapes_push(rows: Seq<ReviewRow>, row: ReviewRow)
    ensures
        shapes_of(rows.push(row)) == shapes_of(rows).push(shape_of(row)),
        shapes_of(rows.push(row)) == shapes_of(rows) + seq![shape_of(row)],
{
    assert(shapes_of(rows.push(row)) =~= shapes_of(rows).push(shape_of(row)));
    assert(shapes_of(rows).push(shape_of(row)) =~= shapes_of(rows) + seq![shape_of(row)]);
}

/// A terminator change as a row.
pub open spec fn ending_shape(change: LineEndingChange) -> RowShape {
    RowShape::LineEnding {
        before: match change.before {
            Some(endpoint) => Some(endpoint.ending),
            None => None,
        },
        after: match change.after {
            Some(endpoint) => Some(endpoint.ending),
            None => None,
        },
    }
}

/// The row group shows the terminator change.
pub open spec fn is_shown(change: LineEndingChange, at: EndingsAt) -> bool {
    match at {
        EndingsAt::BeforeOnly => change.after is None,
        EndingsAt::AnyAfter => change.after is Some,
        EndingsAt::Line(line) => change.after matches Some(endpoint) && endpoint.line == line,
    }
}

/// Rows of the terminator changes that a row group shows, in order.
pub open spec fn ending_shapes(endings: Seq<LineEndingChange>, at: EndingsAt) -> Seq<RowShape>
    decreases endings.len(),
{
    if endings.len() == 0 {
        Seq::empty()
    } else if is_shown(endings.last(), at) {
        ending_shapes(endings.drop_last(), at).push(ending_shape(endings.last()))
    } else {
        ending_shapes(endings.drop_last(), at)
    }
}

/// A terminator changes at the after line.
pub open spec fn ends_at(endings: Seq<LineEndingChange>, line: usize) -> bool {
    exists|k: int|
        0 <= k < endings.len() && ((#[trigger] endings[k]).after matches Some(endpoint)
            && endpoint.line == line)
}

/// First line from `line` on whose terminator changes, or the last line.
pub open spec fn next_ending(endings: Seq<LineEndingChange>, line: int, last: int) -> int
    decreases last - line,
{
    if line >= last || ends_at(endings, line as usize) {
        line
    } else {
        next_ending(endings, line + 1, last)
    }
}

/// Lines of a move that an elision stands for, with the old lines where the lengths agree.
pub open spec fn elided(block: MoveBlock, start: int, end: int) -> LineCoverage {
    LineCoverage {
        before: if block.before.end - block.before.start == block.after.end - block.after.start {
            Some(
                Span {
                    start: (block.before.start + (start - block.after.start)) as usize,
                    end: (block.before.start + (end - block.after.start)) as usize,
                },
            )
        } else {
            None
        },
        after: Some(Span { start: start as usize, end: end as usize }),
    }
}

/// Rows between the ends of a move: lines whose terminator changes, a single middle line, and
/// elisions for the rest.
pub open spec fn middle_shapes(block: MoveBlock, line: int) -> Seq<RowShape>
    decreases block.after.end - 1 - line,
{
    let last = block.after.end - 1;
    let endings = block.line_endings@;
    if line >= last {
        Seq::empty()
    } else if block.after.end - block.after.start == 3 || ends_at(endings, line as usize) {
        seq![RowShape::Current(line as usize)] + ending_shapes(
            endings,
            EndingsAt::Line(line as usize),
        ) + middle_shapes(block, line + 1)
    } else {
        let stop = next_ending(endings, line, last);
        if stop <= line || stop > last {
            Seq::empty()
        } else {
            seq![RowShape::Elision(elided(block, line, stop))] + middle_shapes(block, stop)
        }
    }
}

/// Rows of a move: its first and last line, and what stays visible between them.
pub open spec fn move_shapes(block: MoveBlock) -> Seq<RowShape> {
    let first = block.after.start;
    let last = (block.after.end - 1) as usize;
    let endings = block.line_endings@;
    let head = seq![RowShape::Moved { before: Some(block.before.start), after: first }]
        + ending_shapes(endings, EndingsAt::BeforeOnly) + ending_shapes(
        endings,
        EndingsAt::Line(first),
    );
    if block.after.start >= block.after.end {
        Seq::empty()
    } else if first == last {
        head
    } else {
        head + middle_shapes(block, first + 1) + seq![
            RowShape::Moved { before: None, after: last },
        ] + ending_shapes(endings, EndingsAt::Line(last))
    }
}

/// Rows of one side of a replacement.
pub open spec fn edit_shapes(edits: Seq<SourceEdit>, removed: bool) -> Seq<RowShape> {
    edits.map_values(
        |edit: SourceEdit|
            if removed {
                RowShape::Removed(edit.number)
            } else {
                RowShape::Added(edit.number)
            },
    )
}

/// Rows of one change.
pub open spec fn change_shapes(change: SourceChange) -> Seq<RowShape> {
    match change {
        SourceChange::Context(line) => seq![RowShape::Current(line)],
        SourceChange::Edited(edit) => seq![RowShape::Current(edit.number)],
        SourceChange::Reflow(line) => seq![RowShape::Reflow(line)],
        SourceChange::Replace { before, after, line_endings } => edit_shapes(before@, true)
            + ending_shapes(line_endings@, EndingsAt::BeforeOnly) + edit_shapes(after@, false)
            + ending_shapes(line_endings@, EndingsAt::AnyAfter),
        SourceChange::LineEnding(ending) => seq![ending_shape(ending)],
        SourceChange::Move(block) => move_shapes(block),
        SourceChange::Compact(compact) => seq![
            RowShape::Wordwise { before: compact.before_line, after: compact.after_line },
        ],
        SourceChange::Elision(coverage) => seq![RowShape::Elision(coverage)],
    }
}

/// Rows of a list of changes, in order.
pub open spec fn changes_shapes(changes: Seq<SourceChange>) -> Seq<RowShape>
    decreases changes.len(),
{
    if changes.len() == 0 {
        Seq::empty()
    } else {
        changes_shapes(changes.drop_last()) + change_shapes(changes.last())
    }
}

/// A row without a changed byte.
pub open spec fn is_unmarked(tree: SyntaxTree, row: ReviewRow) -> bool {
    match row {
        ReviewRow::Current(row) => marks_only(row.spans@, DiffMark::Context) && row_classes(
            tree,
            row,
            Seq::empty(),
        ),
        ReviewRow::Reflow(row) => marks_only(row.spans@, DiffMark::Context) && row_classes(
            tree,
            row,
            Seq::empty(),
        ),
        ReviewRow::Moved { before, after: row } => marks_only(row.spans@, DiffMark::Context)
            && row_classes(tree, row, Seq::empty()),
        ReviewRow::Removed(row) => false,
        ReviewRow::Added(row) => false,
        _ => true,
    }
}

/// A row of one side of a replacement, marked on the changed bytes of its edit.
pub open spec fn edit_marked(tree: SyntaxTree, edit: SourceEdit, row: ReviewRow, removed: bool) -> bool {
    match row {
        ReviewRow::Removed(row) => removed && row_marks(
            tree,
            row,
            edit.changed_bytes@,
            DiffMark::Removed,
        ),
        ReviewRow::Added(row) => !removed && row_marks(
            tree,
            row,
            edit.changed_bytes@,
            DiffMark::Added,
        ),
        _ => false,
    }
}

/// Rows from an index on are those of one side of a replacement, marked on the bytes of their
/// edits.
pub open spec fn edits_marked(
    tree: SyntaxTree,
    edits: Seq<SourceEdit>,
    rows: Seq<ReviewRow>,
    start: int,
    removed: bool,
) -> bool {
    forall|k: int|
        #![trigger edits[k]]
        0 <= k < edits.len() ==> edit_marked(tree, edits[k], rows[start + k], removed)
}

/// The rows of a change, which start at an index, mark exactly the changed bytes of the change; a
/// word edit shows the text of its byte ranges.
#[verifier::opaque]
pub open spec fn change_marked(
    before: SyntaxTree,
    after: SyntaxTree,
    change: SourceChange,
    rows: Seq<ReviewRow>,
    start: int,
) -> bool {
    match change {
        SourceChange::Edited(edit) => match rows[start] {
            ReviewRow::Current(row) => row_marks(
                after,
                row,
                edit.changed_bytes@,
                DiffMark::Added,
            ),
            _ => false,
        },
        SourceChange::Replace { before: removed, after: added, line_endings } => edits_marked(
            before,
            removed@,
            rows,
            start,
            true,
        ) && edits_marked(
            after,
            added@,
            rows,
            start + removed@.len() + ending_shapes(line_endings@, EndingsAt::BeforeOnly).len(),
            false,
        ),
        SourceChange::Compact(compact) => match rows[start] {
            ReviewRow::Wordwise(word) => word_shows(before.source, after.source, compact, word),
            _ => false,
        },
        _ => forall|k: int|
            start <= k < start + change_shapes(change).len() ==> is_unmarked(after, #[trigger] rows[k]),
    }
}

/// Every change of a list marks its bytes in its rows.
pub open spec fn changes_marked(
    before: SyntaxTree,
    after: SyntaxTree,
    changes: Seq<SourceChange>,
    rows: Seq<ReviewRow>,
) -> bool {
    forall|i: int|
        #![trigger changes[i]]
        0 <= i < changes.len() ==> change_marked(
            before,
            after,
            changes[i],
            rows,
            changes_shapes(changes.take(i)).len() as int,
        )
}

/// More rows behind those of a change leave its marks as they are.
proof fn lemma_marked_kept(
    before: SyntaxTree,
    after: SyntaxTree,
    change: SourceChange,
    earlier: Seq<ReviewRow>,
    rows: Seq<ReviewRow>,
    start: int,
)
    requires
        0 <= start,
        start + change_shapes(change).len() <= earlier.len() <= rows.len(),
        forall|k: int| 0 <= k < earlier.len() ==> (#[trigger] rows[k]) == earlier[k],
        change_marked(before, after, change, earlier, start),
    ensures
        change_marked(before, after, change, rows, start),
{
    reveal(change_marked);
    match change {
        SourceChange::Replace { before: removed, after: added, line_endings } => {
            let middle = start + removed@.len() + ending_shapes(
                line_endings@,
                EndingsAt::BeforeOnly,
            ).len();
            assert(change_shapes(change).len() >= middle - start + added@.len());
            assert forall|k: int| #![trigger removed@[k]] 0 <= k < removed@.len() implies edit_marked(
                before,
                removed@[k],
                rows[start + k],
                true,
            ) by {
                assert(rows[start + k] == earlier[start + k]);
            }
            assert forall|k: int| #![trigger added@[k]] 0 <= k < added@.len() implies edit_marked(
                after,
                added@[k],
                rows[middle + k],
                false,
            ) by {
                assert(rows[middle + k] == earlier[middle + k]);
            }
        },
        _ => {
            assert forall|k: int| start <= k < start + change_shapes(change).len() implies (
            #[trigger] rows[k]) == earlier[k] by {}
            if change_shapes(change).len() > 0 {
                assert(rows[start] == earlier[start]);
            }
        },
    }
}

/// The rows of the first changes are no more than those of one more.
proof fn lemma_shapes_grow(changes: Seq<SourceChange>, i: int)
    requires
        0 <= i < changes.len(),
    ensures
        changes_shapes(changes.take(i + 1)) == changes_shapes(changes.take(i)) + change_shapes(
            changes[i],
        ),
{
    assert(changes.take(i + 1).drop_last() =~= changes.take(i));
    assert(changes.take(i + 1).last() == changes[i]);
}

/// The rows of fewer changes are no more.
proof fn lemma_shapes_ordered(changes: Seq<SourceChange>, i: int, j: int)
    requires
        0 <= i <= j <= changes.len(),
    ensures
        changes_shapes(changes.take(i)).len() <= changes_shapes(changes.take(j)).len(),
    decreases j - i,
{
    if i < j {
        lemma_shapes_ordered(changes, i, j - 1);
        lemma_shapes_grow(changes, j - 1);
    }
}

/// No row is the file boundary.
pub open spec fn no_boundary(rows: Seq<ReviewRow>) -> bool {
    forall|k: int| 0 <= k < rows.len() ==> !((#[trigger] rows[k]) is FileBoundary)
}

/// Rows were only added, and none of the new ones marks a byte.
pub open spec fn unmarked_from(
    after: SyntaxTree,
    earlier: Seq<ReviewRow>,
    rows: Seq<ReviewRow>,
) -> bool {
    &&& earlier.len() <= rows.len()
    &&& forall|k: int| 0 <= k < earlier.len() ==> (#[trigger] rows[k]) == earlier[k]
    &&& forall|k: int| earlier.len() <= k < rows.len() ==> is_unmarked(after, #[trigger] rows[k])
}

/// Add a plain current row.
fn push_current(rows: &mut Vec<ReviewRow>, before: &SyntaxTree, after: &SyntaxTree, line: usize)
    requires
        after.wf(),
        is_line(line, after.source.line_seq().len() as int),
        rows_ok(before.source, after.source, old(rows)@),
        no_boundary(old(rows)@),
    ensures
        rows_ok(before.source, after.source, final(rows)@),
        no_boundary(final(rows)@),
        final(rows)@.len() == old(rows)@.len() + 1,
        forall|k: int| 0 <= k < old(rows)@.len() ==> (#[trigger] final(rows)@[k]) == old(rows)@[k],
        is_unmarked(*after, final(rows)@.last()),
        shapes_of(final(rows)@) == shapes_of(old(rows)@) + seq![RowShape::Current(line)],
{
    let unchanged: Vec<Span> = Vec::new();
    let row = ReviewRow::Current(source_row(after, line, &unchanged, DiffMark::Added));
    proof {
        lemma_shapes_push(rows@, row);
    }
    rows.push(row);
}

/// Compact moves around their endpoints, keeping terminator edits visible.
fn move_rows(rows: &mut Vec<ReviewRow>, before: &SyntaxTree, after: &SyntaxTree, block: &MoveBlock)
    requires
        after.wf(),
        1 <= block.before.start <= block.before.end,
        1 <= block.after.start <= block.after.end <= after.source.line_seq().len() + 1,
        rows_ok(before.source, after.source, old(rows)@),
        no_boundary(old(rows)@),
    ensures
        rows_ok(before.source, after.source, final(rows)@),
        no_boundary(final(rows)@),
        unmarked_from(*after, old(rows)@, final(rows)@),
        shapes_of(final(rows)@) == shapes_of(old(rows)@) + move_shapes(*block),
{
    let ghost start_shapes = shapes_of(rows@);
    let ghost start_rows = rows@;
    if block.after.start == block.after.end {
        assert(start_shapes + move_shapes(*block) =~= start_shapes);
        return ;
    }
    let unchanged: Vec<Span> = Vec::new();
    let first = block.after.start;
    let head = ReviewRow::Moved {
        before: Some(block.before.start),
        after: source_row(after, first, &unchanged, DiffMark::Context),
    };
    proof {
        lemma_shapes_push(rows@, head);
    }
    rows.push(head);
    push_endings(rows, &block.line_endings, EndingsAt::BeforeOnly);
    push_endings(rows, &block.line_endings, EndingsAt::Line(first));
    let ghost head_shapes = seq![shape_of(head)] + ending_shapes(
        block.line_endings@,
        EndingsAt::BeforeOnly,
    ) + ending_shapes(block.line_endings@, EndingsAt::Line(first));
    assert(shapes_of(rows@) =~= start_shapes + head_shapes);
    let count = block.after.end - block.after.start;
    if count == 1 {
        return ;
    }
    let last = block.after.end - 1;
    let same_length = block.before.end - block.before.start == count;
    let mut line = first + 1;
    let ghost mut middle: Seq<RowShape> = Seq::empty();
    proof {
        assert(middle + middle_shapes(*block, first + 1) =~= middle_shapes(*block, first + 1));
        assert(start_shapes + head_shapes + middle =~= start_shapes + head_shapes);
    }
    while line < last
        invariant
            shapes_of(rows@) == start_shapes + head_shapes + middle,
            unmarked_from(*after, start_rows, rows@),
            middle + middle_shapes(*block, line as int) == middle_shapes(*block, first + 1),
            same_length == (block.before.end - block.before.start == count),
            after.wf(),
            first == block.after.start,
            last == block.after.end - 1,
            count == block.after.end - block.after.start,
            1 <= block.before.start <= block.before.end,
            same_length ==> block.before.end - block.before.start == count,
            1 <= first < line <= last <= after.source.line_seq().len(),
            rows_ok(before.source, after.source, rows@),
            no_boundary(rows@),
        decreases last - line,
    {
        let only_middle = count == 3;
        if only_middle || has_ending(&block.line_endings, line) {
            push_current(rows, before, after, line);
            push_endings(rows, &block.line_endings, EndingsAt::Line(line));
            proof {
                let added = seq![RowShape::Current(line)] + ending_shapes(
                    block.line_endings@,
                    EndingsAt::Line(line),
                );
                assert(shapes_of(rows@) =~= start_shapes + head_shapes + (middle + added));
                assert(middle + added + middle_shapes(*block, line + 1) =~= middle + middle_shapes(
                    *block,
                    line as int,
                ));
                middle = middle + added;
            }
            line += 1;
        } else {
            let start = line;
            while line < last && !has_ending(&block.line_endings, line)
                invariant
                    start <= line <= last,
                    next_ending(block.line_endings@, start as int, last as int) == next_ending(
                        block.line_endings@,
                        line as int,
                        last as int,
                    ),
                decreases last - line,
            {
                line += 1;
            }
            let before_lines = if same_length {
                Some(
                    Span {
                        start: block.before.start + (start - first),
                        end: block.before.start + (line - first),
                    },
                )
            } else {
                None
            };
            let row = ReviewRow::Elision(
                LineCoverage { before: before_lines, after: Some(Span { start, end: line }) },
            );
            proof {
                lemma_shapes_push(rows@, row);
                assert(next_ending(block.line_endings@, start as int, last as int) == line);
                let added = seq![RowShape::Elision(elided(*block, start as int, line as int))];
                assert(shape_of(row) == added[0]);
                assert(shapes_of(rows@.push(row)) =~= start_shapes + head_shapes + (middle + added));
                assert(middle + added + middle_shapes(*block, line as int) =~= middle
                    + middle_shapes(*block, start as int));
                middle = middle + added;
            }
            rows.push(row);
        }
    }
    let tail = ReviewRow::Moved {
        before: None,
        after: source_row(after, last, &unchanged, DiffMark::Context),
    };
    proof {
        lemma_shapes_push(rows@, tail);
        assert(middle_shapes(*block, last as int) =~= Seq::<RowShape>::empty());
        assert(middle =~= middle_shapes(*block, first + 1));
    }
    rows.push(tail);
    push_endings(rows, &block.line_endings, EndingsAt::Line(last));
    assert(shapes_of(rows@) =~= start_shapes + move_shapes(*block));
}

/// Add the lines of one side of a replacement.
fn push_edits(
    rows: &mut Vec<ReviewRow>,
    before: &SyntaxTree,
    after: &SyntaxTree,
    edits: &Vec<SourceEdit>,
    removed: bool,
)
    requires
        before.wf(),
        after.wf(),
        removed ==> crate::review::edits_exist(edits@, before.source.line_seq().len() as int),
        !removed ==> crate::review::edits_exist(edits@, after.source.line_seq().len() as int),
        rows_ok(before.source, after.source, old(rows)@),
        no_boundary(old(rows)@),
    ensures
        rows_ok(before.source, after.source, final(rows)@),
        no_boundary(final(rows)@),
        final(rows)@.len() == old(rows)@.len() + edits@.len(),
        forall|k: int| 0 <= k < old(rows)@.len() ==> (#[trigger] final(rows)@[k]) == old(rows)@[k],
        edits_marked(
            if removed {
                *before
            } else {
                *after
            },
            edits@,
            final(rows)@,
            old(rows)@.len() as int,
            removed,
        ),
        shapes_of(final(rows)@) == shapes_of(old(rows)@) + edit_shapes(edits@, removed),
{
    let ghost start_rows = rows@;
    let ghost tree = if removed {
        *before
    } else {
        *after
    };
    let ghost start = shapes_of(rows@);
    assert(start + edit_shapes(edits@.take(0), removed) =~= start);
    let mut index: usize = 0;
    while index < edits.len()
        invariant
            before.wf(),
            after.wf(),
            removed ==> crate::review::edits_exist(edits@, before.source.line_seq().len() as int),
            !removed ==> crate::review::edits_exist(edits@, after.source.line_seq().len() as int),
            index <= edits@.len(),
            rows_ok(before.source, after.source, rows@),
            no_boundary(rows@),
            shapes_of(rows@) == start + edit_shapes(edits@.take(index as int), removed),
            tree == if removed {
                *before
            } else {
                *after
            },
            rows@.len() == start_rows.len() + index,
            forall|k: int| 0 <= k < start_rows.len() ==> (#[trigger] rows@[k]) == start_rows[k],
            forall|k: int|
                #![trigger edits@[k]]
                0 <= k < index ==> edit_marked(
                    tree,
                    edits@[k],
                    rows@[start_rows.len() + k],
                    removed,
                ),
        decreases edits@.len() - index,
    {
        let edit = &edits[index];
        assert(edits@[index as int] == *edit);
        let row = if removed {
            ReviewRow::Removed(
                source_row(before, edit.number, &edit.changed_bytes, DiffMark::Removed),
            )
        } else {
            ReviewRow::Added(source_row(after, edit.number, &edit.changed_bytes, DiffMark::Added))
        };
        proof {
            lemma_shapes_push(rows@, row);
            assert(start + edit_shapes(edits@.take(index + 1), removed) =~= shapes_of(rows@).push(
                shape_of(row),
            ));
        }
        rows.push(row);
        index += 1;
    }
    assert(edits@.take(edits@.len() as int) =~= edits@);
}

/// Add the rows of one change.
fn present_change(
    rows: &mut Vec<ReviewRow>,
    before: &SyntaxTree,
    after: &SyntaxTree,
    change: &SourceChange,
)
    requires
        before.wf(),
        after.wf(),
        change_fits(
            *change,
            before.source.line_seq().len() as int,
            after.source.line_seq().len() as int,
        ),
        rows_ok(before.source, after.source, old(rows)@),
        no_boundary(old(rows)@),
    ensures
        rows_ok(before.source, after.source, final(rows)@),
        no_boundary(final(rows)@),
        old(rows)@.len() <= final(rows)@.len(),
        forall|k: int| 0 <= k < old(rows)@.len() ==> (#[trigger] final(rows)@[k]) == old(rows)@[k],
        change_marked(*before, *after, *change, final(rows)@, old(rows)@.len() as int),
        shapes_of(final(rows)@) == shapes_of(old(rows)@) + change_shapes(*change),
{
    let ghost start = rows@;
    reveal(change_marked);
    match change {
        SourceChange::Context(line) => {
            push_current(rows, before, after, *line);
        },
        SourceChange::Edited(edit) => {
            let row = ReviewRow::Current(
                source_row(after, edit.number, &edit.changed_bytes, DiffMark::Added),
            );
            proof {
                lemma_shapes_push(rows@, row);
            }
            rows.push(row);
        },
        SourceChange::Reflow(line) => {
            let unchanged: Vec<Span> = Vec::new();
            let row = ReviewRow::Reflow(source_row(after, *line, &unchanged, DiffMark::Context));
            proof {
                lemma_shapes_push(rows@, row);
            }
            rows.push(row);
        },
        SourceChange::Replace { before: removed, after: added, line_endings } => {
            push_edits(rows, before, after, removed, true);
            let ghost first = rows@;
            push_endings(rows, line_endings, EndingsAt::BeforeOnly);
            let ghost second = rows@;
            proof {
                assert(shapes_of(second).len() == second.len() && shapes_of(first).len()
                    == first.len());
            }
            push_edits(rows, before, after, added, false);
            let ghost third = rows@;
            push_endings(rows, line_endings, EndingsAt::AnyAfter);
            assert(shapes_of(rows@) =~= shapes_of(start) + change_shapes(*change));
            proof {
                assert forall|k: int| #![trigger removed@[k]] 0
                    <= k < removed@.len() implies edit_marked(
                    *before,
                    removed@[k],
                    rows@[start.len() + k],
                    true,
                ) by {
                    let at = start.len() + k;
                    assert(second[at] == first[at] && third[at] == second[at] && rows@[at]
                        == third[at]);
                }
                assert forall|k: int| #![trigger added@[k]] 0 <= k < added@.len() implies edit_marked(
                    *after,
                    added@[k],
                    rows@[second.len() + k],
                    false,
                ) by {
                    assert(rows@[second.len() + k] == third[second.len() + k]);
                }
            }
        },
        SourceChange::LineEnding(ending) => {
            let row = line_ending_row(*ending);
            proof {
                lemma_shapes_push(rows@, row);
            }
            rows.push(row);
        },
        SourceChange::Move(block) => {
            move_rows(rows, before, after, block);
            assert(shapes_of(rows@).len() == rows@.len());
        },
        SourceChange::Compact(compact) => {
            let row = ReviewRow::Wordwise(word_diff(before, after, compact));
            proof {
                lemma_shapes_push(rows@, row);
            }
            rows.push(row);
        },
        SourceChange::Elision(coverage) => {
            let row = ReviewRow::Elision(*coverage);
            proof {
                lemma_shapes_push(rows@, row);
            }
            rows.push(row);
        },
    }
}

/// Whether a hunk reaches the end of the file.
fn reaches_boundary(hunk: &RefinedHunk, before_lines: usize, after_lines: usize) -> (result: bool)
    ensures
        result == hunk_reaches_end(*hunk, before_lines as int, after_lines as int),
{
    let covers_after = match hunk.coverage.after {
        Some(lines) => lines.end > 0 && lines.end - 1 == after_lines,
        None => false,
    };
    let shows_last = if hunk.changes.len() > 0 {
        match hunk.changes[hunk.changes.len() - 1].last_displayed_after() {
            Some(line) => line == after_lines,
            None => false,
        }
    } else {
        false
    };
    let covers_before = match hunk.coverage.before {
        Some(lines) => hunk.coverage.after.is_none() && lines.end > 0 && lines.end - 1
            == before_lines,
        None => false,
    };
    covers_after || shows_last || covers_before
}

/// Coverage or the last displayed line reaches the end of the current file; or the hunk only
/// removes lines, up to the end of the old file.
pub open spec fn hunk_reaches_end(hunk: RefinedHunk, before_lines: int, after_lines: int) -> bool {
    ||| hunk.coverage.after matches Some(lines) && lines.end == after_lines + 1
    ||| hunk.changes@.len() > 0 && (crate::review::last_displayed(hunk.changes@.last()) matches Some(
        line,
    ) && line == after_lines)
    ||| hunk.coverage.after is None && (hunk.coverage.before matches Some(lines) && lines.end
        == before_lines + 1)
}

/// The rows of every hunk are those of its changes, in order; the file boundary may follow the
/// last one. Rows mark the changed bytes of their change, and no others.
pub open spec fn hunks_shown(
    before: SyntaxTree,
    after: SyntaxTree,
    hunks: Seq<RefinedHunk>,
    presented: Seq<ReviewHunk>,
) -> bool {
    &&& presented.len() == hunks.len()
    &&& forall|h: int|
        0 <= h < presented.len() ==> changes_marked(
            before,
            after,
            hunks[h].changes@,
            (#[trigger] presented[h]).rows@,
        )
    &&& forall|h: int|
        0 <= h < presented.len() ==> (#[trigger] presented[h]).coverage == hunks[h].coverage && (
        shapes_of(presented[h].rows@) == changes_shapes(hunks[h].changes@) || h == presented.len()
            - 1 && shapes_of(presented[h].rows@) == changes_shapes(hunks[h].changes@).push(
            RowShape::FileBoundary,
        ))
}

/// Rows spell their sources; only the very last row of the last hunk may be the file boundary.
pub open spec fn hunks_ok(before: Source, after: Source, hunks: Seq<ReviewHunk>) -> bool {
    &&& forall|h: int| 0 <= h < hunks.len() ==> rows_ok(before, after, (#[trigger] hunks[h]).rows@)
    &&& forall|h: int|
        0 <= h < hunks.len() - 1 ==> no_boundary((#[trigger] hunks[h]).rows@)
    &&& hunks.len() > 0 && hunks.last().rows@.len() > 0 ==> no_boundary(
        hunks.last().rows@.drop_last(),
    )
}

/// The stream ends with the file boundary.
pub open spec fn ends_at_boundary(hunks: Seq<ReviewHunk>) -> bool {
    hunks.len() > 0 && hunks.last().rows@.len() > 0 && hunks.last().rows@.last() is FileBoundary
}

/// The first changes of a list mark their bytes in their rows.
spec fn marked_to(
    before: SyntaxTree,
    after: SyntaxTree,
    changes: Seq<SourceChange>,
    rows: Seq<ReviewRow>,
    end: int,
) -> bool {
    forall|i: int|
        #![trigger changes[i]]
        0 <= i < end ==> change_marked(
            before,
            after,
            changes[i],
            rows,
            changes_shapes(changes.take(i)).len() as int,
        )
}

/// More rows leave the marks of the first changes as they are.
proof fn lemma_marked_still(
    before: SyntaxTree,
    after: SyntaxTree,
    changes: Seq<SourceChange>,
    earlier: Seq<ReviewRow>,
    rows: Seq<ReviewRow>,
    end: int,
)
    requires
        0 <= end <= changes.len(),
        earlier.len() == changes_shapes(changes.take(end)).len(),
        earlier.len() <= rows.len(),
        forall|k: int| 0 <= k < earlier.len() ==> (#[trigger] rows[k]) == earlier[k],
        marked_to(before, after, changes, earlier, end),
    ensures
        marked_to(before, after, changes, rows, end),
{
    assert forall|i: int| #![trigger changes[i]] 0 <= i < end implies change_marked(
        before,
        after,
        changes[i],
        rows,
        changes_shapes(changes.take(i)).len() as int,
    ) by {
        lemma_shapes_grow(changes, i);
        lemma_shapes_ordered(changes, i + 1, end);
        lemma_marked_kept(
            before,
            after,
            changes[i],
            earlier,
            rows,
            changes_shapes(changes.take(i)).len() as int,
        );
    }
}

/// One more change marks its bytes behind the earlier rows.
proof fn lemma_marked_step(
    before: SyntaxTree,
    after: SyntaxTree,
    changes: Seq<SourceChange>,
    earlier: Seq<ReviewRow>,
    rows: Seq<ReviewRow>,
    end: int,
)
    requires
        0 <= end < changes.len(),
        earlier.len() == changes_shapes(changes.take(end)).len(),
        earlier.len() <= rows.len(),
        forall|k: int| 0 <= k < earlier.len() ==> (#[trigger] rows[k]) == earlier[k],
        marked_to(before, after, changes, earlier, end),
        change_marked(before, after, changes[end], rows, earlier.len() as int),
    ensures
        marked_to(before, after, changes, rows, end + 1),
{
    lemma_marked_still(before, after, changes, earlier, rows, end);
}

/// Render refined changes while preserving their order and coverage.
pub fn present_hunks(before: &SyntaxTree, after: &SyntaxTree, hunks: &Vec<RefinedHunk>) -> (presented:
    Vec<ReviewHunk>)
    requires
        before.wf(),
        after.wf(),
        forall|h: int|
            0 <= h < hunks@.len() ==> changes_fit(
                (#[trigger] hunks@[h]).changes@,
                before.source.line_seq().len() as int,
                after.source.line_seq().len() as int,
            ),
    ensures
        hunks_shown(*before, *after, hunks@, presented@),
        hunks_ok(before.source, after.source, presented@),
        ends_at_boundary(presented@) <==> exists|h: int|
            0 <= h < hunks@.len() && hunk_reaches_end(
                #[trigger] hunks@[h],
                before.source.line_seq().len() as int,
                after.source.line_seq().len() as int,
            ),
{
    let before_lines = before.source.line_count();
    let after_lines = after.source.line_count();
    let mut show_boundary: bool = false;
    let mut probe: usize = 0;
    while probe < hunks.len()
        invariant
            probe <= hunks@.len(),
            before_lines == before.source.line_seq().len(),
            after_lines == after.source.line_seq().len(),
            show_boundary <==> exists|h: int|
                0 <= h < probe && hunk_reaches_end(
                    #[trigger] hunks@[h],
                    before_lines as int,
                    after_lines as int,
                ),
        decreases hunks@.len() - probe,
    {
        if reaches_boundary(&hunks[probe], before_lines, after_lines) {
            assert(hunk_reaches_end(
                hunks@[probe as int],
                before_lines as int,
                after_lines as int,
            ));
            show_boundary = true;
        }
        probe += 1;
    }
    let mut presented: Vec<ReviewHunk> = Vec::new();
    let mut index: usize = 0;
    while index < hunks.len()
        invariant
            before.wf(),
            after.wf(),
            forall|h: int|
                0 <= h < hunks@.len() ==> changes_fit(
                    (#[trigger] hunks@[h]).changes@,
                    before.source.line_seq().len() as int,
                    after.source.line_seq().len() as int,
                ),
            index <= hunks@.len(),
            presented@.len() == index,
            forall|h: int|
                0 <= h < presented@.len() ==> (#[trigger] presented@[h]).coverage
                    == hunks@[h].coverage && (shapes_of(presented@[h].rows@) == changes_shapes(
                    hunks@[h].changes@,
                ) || h == hunks@.len() - 1 && shapes_of(presented@[h].rows@) == changes_shapes(
                    hunks@[h].changes@,
                ).push(RowShape::FileBoundary)),
            forall|h: int|
                0 <= h < presented@.len() ==> rows_ok(
                    before.source,
                    after.source,
                    (#[trigger] presented@[h]).rows@,
                ),
            forall|h: int|
                0 <= h < presented@.len() ==> changes_marked(
                    *before,
                    *after,
                    hunks@[h].changes@,
                    (#[trigger] presented@[h]).rows@,
                ),
            forall|h: int|
                0 <= h < presented@.len() && h < hunks@.len() - 1 ==> no_boundary(
                    (#[trigger] presented@[h]).rows@,
                ),
            index == hunks@.len() && index > 0 ==> {
                let rows = presented@[index - 1].rows@;
                if show_boundary {
                    rows.len() > 0 && rows.last() is FileBoundary && no_boundary(rows.drop_last())
                } else {
                    no_boundary(rows)
                }
            },
        decreases hunks@.len() - index,
    {
        let hunk = &hunks[index];
        let mut rows: Vec<ReviewRow> = Vec::new();
        let mut position: usize = 0;
        proof {
            assert(hunk.changes@.take(0) =~= Seq::<SourceChange>::empty());
            assert(shapes_of(rows@) =~= changes_shapes(hunk.changes@.take(0)));
        }
        while position < hunk.changes.len()
            invariant
                shapes_of(rows@) == changes_shapes(hunk.changes@.take(position as int)),
                marked_to(*before, *after, hunk.changes@, rows@, position as int),
                before.wf(),
                after.wf(),
                changes_fit(
                    hunk.changes@,
                    before.source.line_seq().len() as int,
                    after.source.line_seq().len() as int,
                ),
                position <= hunk.changes@.len(),
                rows_ok(before.source, after.source, rows@),
                no_boundary(rows@),
            decreases hunk.changes@.len() - position,
        {
            assert(change_fits(
                hunk.changes@[position as int],
                before.source.line_seq().len() as int,
                after.source.line_seq().len() as int,
            ));
            let ghost earlier = rows@;
            present_change(&mut rows, before, after, &hunk.changes[position]);
            proof {
                assert(shapes_of(earlier).len() == earlier.len());
                lemma_marked_step(
                    *before,
                    *after,
                    hunk.changes@,
                    earlier,
                    rows@,
                    position as int,
                );
                let shown = hunk.changes@.take(position + 1);
                assert(shown.drop_last() =~= hunk.changes@.take(position as int));
                assert(shown.last() == hunk.changes@[position as int]);
            }
            position += 1;
        }
        assert(hunk.changes@.take(hunk.changes@.len() as int) =~= hunk.changes@);
        let ghost unbounded = rows@;
        if show_boundary && index == hunks.len() - 1 {
            let ghost earlier = rows@;
            proof {
                lemma_shapes_push(rows@, ReviewRow::FileBoundary);
            }
            rows.push(ReviewRow::FileBoundary);
            assert(rows@.drop_last() =~= earlier);
        }
        proof {
            assert(shapes_of(unbounded).len() == unbounded.len());
            lemma_marked_still(
                *before,
                *after,
                hunk.changes@,
                unbounded,
                rows@,
                hunk.changes@.len() as int,
            );
        }
        presented.push(ReviewHunk { coverage: hunk.coverage, rows });
        index += 1;
    }
    proof {
        if presented@.len() > 0 {
            let rows = presented@.last().rows@;
            if !show_boundary && rows.len() > 0 {
                assert forall|k: int| 0 <= k < rows.drop_last().len() implies !((
                #[trigger] rows.drop_last()[k]) is FileBoundary) by {
                    assert(rows[k] == rows.drop_last()[k]);
                }
                assert(!(rows[rows.len() - 1] is FileBoundary));
            }
        }
    }
    presented
}

} // verus!

//! Source text with exact physical-line geometry.

use crate::span::Span;
use crate::text::same_bytes;
use vstd::prelude::*;
use vstd::utf8::*;

verus! {

/// Terminator of one physical line.
#[derive(Clone, Copy, Debug, PartialEq, Eq, Structural)]
pub enum LineEnding {
    /// The final line of a file that does not end in a newline.
    Missing,
    Lf,
    CrLf,
}

/// One physical line: its number, its content, and its content with the terminator.
#[derive(Clone, Copy, Debug, PartialEq, Eq, Structural)]
pub struct SourceLine {
    /// One-based line number.
    pub number: usize,
    pub content_bytes: Span,
    pub full_bytes: Span,
    pub ending: LineEnding,
}

/// Line feed.
pub const NEWLINE: u8 = 10;

/// Carriage return.
pub const RETURN: u8 = 13;

/// End of the physical line that starts at `start`: just past its line feed, or the end.
pub open spec fn line_end(data: Seq<u8>, start: int) -> int
    decreases data.len() - start,
{
    if start >= data.len() {
        data.len() as int
    } else if data[start] == NEWLINE {
        start + 1
    } else {
        line_end(data, start + 1)
    }
}

/// Terminator of the line that covers `start..end`.
pub open spec fn ending_of(data: Seq<u8>, start: int, end: int) -> LineEnding {
    if start < end && data[end - 1] == NEWLINE {
        if start < end - 1 && data[end - 2] == RETURN {
            LineEnding::CrLf
        } else {
            LineEnding::Lf
        }
    } else {
        LineEnding::Missing
    }
}

/// Bytes of a terminator.
pub open spec fn ending_width(ending: LineEnding) -> int {
    match ending {
        LineEnding::Missing => 0,
        LineEnding::Lf => 1,
        LineEnding::CrLf => 2,
    }
}

/// The line is the physical line of `data` that starts at its first byte.
pub open spec fn is_line_of(data: Seq<u8>, line: SourceLine) -> bool {
    &&& line.full_bytes.start < line.full_bytes.end <= data.len()
    &&& line.full_bytes.end == line_end(data, line.full_bytes.start as int)
    &&& line.ending == ending_of(data, line.full_bytes.start as int, line.full_bytes.end as int)
    &&& line.content_bytes.start == line.full_bytes.start
    &&& line.content_bytes.end == line.full_bytes.end - ending_width(line.ending)
    &&& line.content_bytes.start <= line.content_bytes.end
}

/// The lines partition `data`: each is exact, they abut, and together they cover every byte.
pub open spec fn lines_cover(data: Seq<u8>, lines: Seq<SourceLine>, end: int) -> bool {
    &&& forall|i: int|
        0 <= i < lines.len() ==> is_line_of(data, #[trigger] lines[i]) && lines[i].number == i + 1
    &&& forall|i: int, j: int|
        0 <= i < lines.len() && j == i + 1 && j < lines.len() ==> (
        #[trigger] lines[j]).full_bytes.start == (#[trigger] lines[i]).full_bytes.end
    &&& lines.len() > 0 ==> lines[0].full_bytes.start == 0
    &&& end == if lines.len() == 0 {
        0
    } else {
        lines.last().full_bytes.end as int
    }
}

proof fn lemma_line_end(data: Seq<u8>, start: int)
    requires
        0 <= start <= data.len(),
    ensures
        start <= line_end(data, start) <= data.len(),
        start < data.len() ==> start < line_end(data, start),
        line_end(data, start) < data.len() ==> data[line_end(data, start) - 1] == NEWLINE,
        forall|k: int| start <= k < line_end(data, start) - 1 ==> data[k] != NEWLINE,
    decreases data.len() - start,
{
    if start < data.len() && data[start] != NEWLINE {
        lemma_line_end(data, start + 1);
    }
}

/// Source text and its physical lines.
#[derive(Clone, Debug, PartialEq, Eq)]
pub struct Source {
    text: String,
    lines: Vec<SourceLine>,
}

impl Source {
    /// The encoded bytes of the text.
    pub closed spec fn data(self) -> Seq<u8> {
        encode_utf8(self.text@)
    }

    /// The characters of the text.
    pub closed spec fn chars(self) -> Seq<char> {
        self.text@
    }

    /// The physical lines.
    pub closed spec fn line_seq(self) -> Seq<SourceLine> {
        self.lines@
    }

    /// The lines partition the text.
    pub open spec fn wf(self) -> bool {
        &&& lines_cover(self.data(), self.line_seq(), self.data().len() as int)
        &&& self.data().len() + 1 < usize::MAX
    }

    /// Split a text into its physical lines.
    pub fn new(text: &str) -> (source: Source)
        requires
            encode_utf8(text@).len() + 1 < usize::MAX,
        ensures
            source.wf(),
            source.chars() == text@,
            source.data() == encode_utf8(text@),
    {
        let bytes = text.as_bytes();
        let mut lines: Vec<SourceLine> = Vec::new();
        let mut start: usize = 0;
        let ghost data = bytes@;
        while start < bytes.len()
            invariant
                data == bytes@,
                start <= data.len(),
                lines.len() <= start,
                lines_cover(data, lines@, start as int),
            decreases data.len() - start,
        {
            let mut end: usize = start;
            while end < bytes.len() && bytes[end] != NEWLINE
                invariant
                    data == bytes@,
                    start <= end <= data.len(),
                    line_end(data, start as int) == line_end(data, end as int),
                decreases data.len() - end,
            {
                end += 1;
            }
            if end < bytes.len() {
                end += 1;
            }
            proof {
                lemma_line_end(data, start as int);
            }
            let ending = if bytes[end - 1] == NEWLINE {
                if start < end - 1 && bytes[end - 2] == RETURN {
                    LineEnding::CrLf
                } else {
                    LineEnding::Lf
                }
            } else {
                LineEnding::Missing
            };
            let content_end = match ending {
                LineEnding::Missing => end,
                LineEnding::Lf => end - 1,
                LineEnding::CrLf => end - 2,
            };
            let number = lines.len() + 1;
            lines.push(
                SourceLine {
                    number,
                    content_bytes: Span { start, end: content_end },
                    full_bytes: Span { start, end },
                    ending,
                },
            );
            start = end;
        }
        let owned = text.to_owned();
        Source { text: owned, lines }
    }

    /// The whole text.
    pub fn as_str(&self) -> (text: &str)
        ensures
            text@ == self.chars(),
            encode_utf8(text@) == self.data(),
    {
        self.text.as_str()
    }

    /// Encoded bytes of the text.
    pub fn as_bytes(&self) -> (bytes: &[u8])
        ensures
            bytes@ == self.data(),
    {
        self.text.as_str().as_bytes()
    }

    /// Length of the text in bytes.
    pub fn byte_len(&self) -> (len: usize)
        ensures
            len == self.data().len(),
    {
        self.as_bytes().len()
    }

    /// All physical lines in order.
    pub fn lines(&self) -> (lines: &Vec<SourceLine>)
        ensures
            lines@ == self.line_seq(),
    {
        &self.lines
    }

    /// Number of physical lines.
    pub fn line_count(&self) -> (count: usize)
        ensures
            count == self.line_seq().len(),
    {
        self.lines.len()
    }

    /// Line for a one-based number.
    pub fn line(&self, number: usize) -> (line: Option<&SourceLine>)
        ensures
            match line {
                Some(line) => 1 <= number <= self.line_seq().len() && *line
                    == self.line_seq()[number - 1],
                None => number == 0 || number > self.line_seq().len(),
            },
    {
        if number == 0 || number > self.lines.len() {
            return None;
        }
        Some(&self.lines[number - 1])
    }

    /// Text of a byte range, where the range lies inside the text on character boundaries.
    pub fn slice(&self, start: usize, end: usize) -> (text: Option<&str>)
        ensures
            text is Some <==> start <= end <= self.data().len() && is_char_boundary(
                self.data(),
                start as int,
            ) && is_char_boundary(self.data(), end as int),
            text matches Some(text) ==> encode_utf8(text@) == self.data().subrange(
                start as int,
                end as int,
            ),
    {
        let whole = self.text.as_str();
        proof {
            encode_utf8_valid_utf8(self.text@);
        }
        if start > end || end > self.byte_len() {
            return None;
        }
        if !whole.is_char_boundary(start) || !whole.is_char_boundary(end) {
            return None;
        }
        let tail = whole.split_at(start).1;
        proof {
            lemma_boundary_after_split(self.data(), start as int, end as int);
            assert(encode_utf8(tail@) == self.data().subrange(
                start as int,
                self.data().len() as int,
            ));
        }
        let part = tail.split_at(end - start).0;
        proof {
            assert(encode_utf8(part@) =~= self.data().subrange(start as int, end as int));
        }
        Some(part)
    }

    /// Encoded text of a line without its terminator.
    pub open spec fn line_content(self, line: SourceLine) -> Seq<u8> {
        self.data().subrange(line.content_bytes.start as int, line.content_bytes.end as int)
    }

    /// Encoded text of a line with its terminator.
    pub open spec fn line_full(self, line: SourceLine) -> Seq<u8> {
        self.data().subrange(line.full_bytes.start as int, line.full_bytes.end as int)
    }

    /// Whether two lines hold the same text without their terminators.
    pub fn same_text(&self, index: usize, other: &Source, other_index: usize) -> (same: bool)
        requires
            self.wf(),
            other.wf(),
            index < self.line_seq().len(),
            other_index < other.line_seq().len(),
        ensures
            same == (self.line_content(self.line_seq()[index as int]) == other.line_content(
                other.line_seq()[other_index as int],
            )),
    {
        let left = &self.lines[index];
        let right = &other.lines[other_index];
        assert(is_line_of(self.data(), self.lines@[index as int]));
        assert(is_line_of(other.data(), other.lines@[other_index as int]));
        same_bytes(
            self.as_bytes(),
            left.content_bytes.start,
            left.content_bytes.end,
            other.as_bytes(),
            right.content_bytes.start,
            right.content_bytes.end,
        )
    }

    /// Whether two lines hold the same text including their terminators.
    pub fn same_full_text(&self, index: usize, other: &Source, other_index: usize) -> (same: bool)
        requires
            self.wf(),
            other.wf(),
            index < self.line_seq().len(),
            other_index < other.line_seq().len(),
        ensures
            same == (self.line_full(self.line_seq()[index as int]) == other.line_full(
                other.line_seq()[other_index as int],
            )),
    {
        let left = &self.lines[index];
        let right = &other.lines[other_index];
        assert(is_line_of(self.data(), self.lines@[index as int]));
        assert(is_line_of(other.data(), other.lines@[other_index as int]));
        same_bytes(
            self.as_bytes(),
            left.full_bytes.start,
            left.full_bytes.end,
            other.as_bytes(),
            right.full_bytes.start,
            right.full_bytes.end,
        )
    }

    /// Index of the line that holds the byte, or the number of lines past the end.
    pub open spec fn line_index_at(self, byte: int, index: int) -> bool {
        &&& 0 <= index <= self.line_seq().len()
        &&& forall|k: int|
            0 <= k < index ==> (#[trigger] self.line_seq()[k]).full_bytes.end <= byte
        &&& index < self.line_seq().len() ==> byte < self.line_seq()[index].full_bytes.end
    }

    /// Count of lines that end at or before a byte.
    pub fn line_index(&self, byte: usize) -> (index: usize)
        requires
            self.wf(),
        ensures
            self.line_index_at(byte as int, index as int),
    {
        let mut low: usize = 0;
        let mut high: usize = self.lines.len();
        while low < high
            invariant
                self.wf(),
                low <= high <= self.lines.len(),
                forall|k: int|
                    0 <= k < low ==> (#[trigger] self.line_seq()[k]).full_bytes.end <= byte,
                high < self.lines.len() ==> byte < self.line_seq()[high as int].full_bytes.end,
            decreases high - low,
        {
            let middle: usize = low + (high - low) / 2;
            if self.lines[middle].full_bytes.end <= byte {
                proof {
                    assert forall|k: int| 0 <= k < middle + 1 implies (
                    #[trigger] self.line_seq()[k]).full_bytes.end <= byte by {
                        lemma_line_ends_grow(self.data(), self.lines@, k, middle as int);
                    }
                }
                low = middle + 1;
            } else {
                high = middle;
            }
        }
        low
    }

    /// The lines that hold the bytes of a range; an empty range covers the line at its position,
    /// the last line past the end, and nothing in an empty text.
    pub open spec fn covers(self, lines: Span, start: int, end: int) -> bool {
        let count = self.line_seq().len() as int;
        let first = lines.start - 1;
        let last = lines.end - 2;
        if count == 0 {
            lines.start == 1 && lines.end == 1
        } else {
            &&& 0 <= first <= last < count
            &&& self.line_index_at(start, first) || (first == count - 1 && self.line_index_at(
                start,
                count,
            ))
            &&& if start < end {
                self.line_index_at(end - 1, last)
            } else {
                last == first
            }
        }
    }

    /// A byte range has one line coverage.
    pub proof fn lines_covered_once(self, left: Span, right: Span, start: int, end: int)
        requires
            self.wf(),
            self.covers(left, start, end),
            self.covers(right, start, end),
            1 <= left.start,
            1 <= right.start,
        ensures
            left == right,
    {
        if self.line_seq().len() > 0 {
            self.lemma_one_line(start, left.start - 1, right.start - 1);
            if start < end {
                self.lemma_one_line(end - 1, left.end - 2, right.end - 2);
            }
        }
    }

    proof fn lemma_one_line(self, byte: int, left: int, right: int)
        requires
            0 <= left < self.line_seq().len(),
            0 <= right < self.line_seq().len(),
            self.line_index_at(byte, left) || (left == self.line_seq().len() - 1
                && self.line_index_at(byte, self.line_seq().len() as int)),
            self.line_index_at(byte, right) || (right == self.line_seq().len() - 1
                && self.line_index_at(byte, self.line_seq().len() as int)),
        ensures
            left == right,
    {
        assert(self.line_seq()[left].full_bytes.end == self.line_seq()[left].full_bytes.end);
        assert(self.line_seq()[right].full_bytes.end == self.line_seq()[right].full_bytes.end);
    }

    /// One-based half-open line range that covers a byte range inside the text.
    pub fn line_coverage(&self, start: usize, end: usize) -> (lines: Option<Span>)
        requires
            self.wf(),
        ensures
            lines is Some <==> start <= end <= self.data().len(),
            lines matches Some(lines) ==> self.covers(lines, start as int, end as int),
            lines matches Some(lines) ==> 1 <= lines.start <= lines.end <= self.line_seq().len()
                + 1,
    {
        if start > end || end > self.byte_len() {
            return None;
        }
        let count = self.lines.len();
        if count == 0 {
            return Some(Span { start: 1, end: 1 });
        }
        proof {
            lemma_line_count_bound(self.data(), self.lines@, count - 1);
        }
        let mut first = self.line_index(start);
        if first >= count {
            first = count - 1;
        }
        let mut last = first;
        if end > start {
            last = self.line_index(end - 1);
            proof {
                assert(self.line_seq()[count - 1].full_bytes.end == self.data().len());
                if last >= count {
                    assert(self.line_seq()[count - 1].full_bytes.end <= end - 1);
                }
                if last < first {
                    assert(self.line_seq()[last as int].full_bytes.end <= start);
                }
            }
        }
        Some(Span { start: first + 1, end: last + 2 })
    }
}

proof fn lemma_line_ends_grow(data: Seq<u8>, lines: Seq<SourceLine>, low: int, high: int)
    requires
        lines_cover(data, lines, data.len() as int),
        0 <= low <= high < lines.len(),
    ensures
        lines[low].full_bytes.end <= lines[high].full_bytes.end,
    decreases high - low,
{
    if low < high {
        lemma_line_ends_grow(data, lines, low, high - 1);
        assert(lines[high].full_bytes.start == lines[high - 1].full_bytes.end);
        assert(is_line_of(data, lines[high]));
    }
}

proof fn lemma_line_count_bound(data: Seq<u8>, lines: Seq<SourceLine>, index: int)
    requires
        lines_cover(data, lines, data.len() as int),
        0 <= index < lines.len(),
    ensures
        index + 1 <= lines[index].full_bytes.end <= data.len(),
    decreases index,
{
    assert(is_line_of(data, lines[index]));
    if index > 0 {
        lemma_line_count_bound(data, lines, index - 1);
        assert(lines[index].full_bytes.start == lines[index - 1].full_bytes.end);
    }
}

proof fn lemma_boundary_after_split(data: Seq<u8>, start: int, end: int)
    requires
        valid_utf8(data),
        0 <= start <= end <= data.len(),
        is_char_boundary(data, start),
        is_char_boundary(data, end),
    ensures
        is_char_boundary(data.subrange(start, data.len() as int), end - start),
{
    let tail = data.subrange(start, data.len() as int);
    valid_utf8_split(data, start);
    if end == data.len() {
        is_char_boundary_start_end_of_seq(tail);
    } else {
        is_char_boundary_iff_not_is_continuation_byte(data, end);
        is_char_boundary_iff_not_is_continuation_byte(tail, end - start);
        assert(tail[end - start] == data[end]);
    }
}

/// Splitting keeps every byte: the full lines concatenate to the text.
pub open spec fn joined_lines(data: Seq<u8>, lines: Seq<SourceLine>) -> Seq<u8>
    decreases lines.len(),
{
    if lines.len() == 0 {
        Seq::empty()
    } else {
        joined_lines(data, lines.drop_last()) + data.subrange(
            lines.last().full_bytes.start as int,
            lines.last().full_bytes.end as int,
        )
    }
}

proof fn lemma_joined_lines(data: Seq<u8>, lines: Seq<SourceLine>, end: int)
    requires
        lines_cover(data, lines, end),
        0 <= end <= data.len(),
    ensures
        joined_lines(data, lines) == data.subrange(0, end),
    decreases lines.len(),
{
    if lines.len() == 0 {
        assert(data.subrange(0, end) =~= Seq::<u8>::empty());
    } else {
        let shorter = lines.drop_last();
        let start = lines.last().full_bytes.start as int;
        assert(is_line_of(data, lines[lines.len() - 1]));
        assert(lines_cover(data, shorter, start)) by {
            assert forall|i: int| 0 <= i < shorter.len() implies is_line_of(
                data,
                #[trigger] shorter[i],
            ) && shorter[i].number == i + 1 by {
                assert(shorter[i] == lines[i]);
            }
            assert forall|i: int, j: int|
                0 <= i < shorter.len() && j == i + 1 && j < shorter.len() implies (
            #[trigger] shorter[j]).full_bytes.start == (#[trigger] shorter[i]).full_bytes.end by {
                assert(shorter[i] == lines[i] && shorter[j] == lines[j]);
            }
        }
        lemma_joined_lines(data, shorter, start);
        assert(data.subrange(0, start) + data.subrange(start, end) =~= data.subrange(0, end));
    }
}

/// The physical lines of a source, with their terminators, are exactly its text.
pub proof fn law_lines_concatenate_to_text(source: Source)
    requires
        source.wf(),
    ensures
        joined_lines(source.data(), source.line_seq()) == source.data(),
{
    lemma_joined_lines(source.data(), source.line_seq(), source.data().len() as int);
    assert(source.data().subrange(0, source.data().len() as int) =~= source.data());
}

/// Both ends of an ASCII byte are character boundaries.
proof fn lemma_ascii_boundaries(bytes: Seq<u8>, index: int)
    requires
        valid_utf8(bytes),
        0 <= index < bytes.len(),
        bytes[index] < 0x80,
    ensures
        is_char_boundary(bytes, index),
        is_char_boundary(bytes, index + 1),
    decreases bytes.len(),
{
    let width = length_of_first_scalar(bytes);
    if index == 0 {
        reveal_with_fuel(is_char_boundary, 2);
        assert(is_leading_byte_width_1(bytes[0]));
        assert(width == 1);
    } else {
        assert(index >= width) by {
            if index < width {
                assert(is_continuation_byte(bytes[index]));
            }
        }
        let rest = pop_first_scalar(bytes);
        assert(rest[index - width] == bytes[index]);
        lemma_ascii_boundaries(rest, index - width);
    }
}

impl Source {
    /// The bytes of a source encode its characters.
    pub proof fn lemma_encoding(&self)
        ensures
            self.data() == encode_utf8(self.chars()),
    {
    }

    /// Sources with the same bytes have the same lines.
    pub proof fn lemma_same_lines(&self, other: &Source)
        requires
            self.wf(),
            other.wf(),
            self.data() == other.data(),
        ensures
            self.line_seq() == other.line_seq(),
    {
        let left = self.line_seq();
        let right = other.line_seq();
        let data = self.data();
        assert forall|k: int| 0 <= k < left.len() && k < right.len() implies left[k] == right[k] by {
            lemma_lines_agree(data, left, right, k);
        }
        if left.len() < right.len() {
            let at = left.len() as int;
            assert(is_line_of(data, right[at]));
            if at > 0 {
                assert(left[at - 1] == right[at - 1]);
                assert(right[at].full_bytes.start == right[at - 1].full_bytes.end);
            }
        }
        if right.len() < left.len() {
            let at = right.len() as int;
            assert(is_line_of(data, left[at]));
            if at > 0 {
                assert(left[at - 1] == right[at - 1]);
                assert(left[at].full_bytes.start == left[at - 1].full_bytes.end);
            }
        }
        assert(left =~= right);
    }

    /// Lines hold at least one byte each, so their count stays below the length limit.
    pub proof fn lemma_line_count(&self)
        requires
            self.wf(),
        ensures
            self.line_seq().len() <= self.data().len(),
            self.line_seq().len() + 1 < usize::MAX,
    {
        if self.line_seq().len() > 0 {
            lemma_line_count_bound(self.data(), self.line_seq(), self.line_seq().len() - 1);
        }
    }

    /// Lines with equal bytes have equal contents and terminators.
    pub proof fn lemma_equal_lines(&self, index: int, other: &Source, other_index: int)
        requires
            self.wf(),
            other.wf(),
            0 <= index < self.line_seq().len(),
            0 <= other_index < other.line_seq().len(),
            self.line_full(self.line_seq()[index]) == other.line_full(
                other.line_seq()[other_index],
            ),
        ensures
            self.line_content(self.line_seq()[index]) == other.line_content(
                other.line_seq()[other_index],
            ),
            self.line_seq()[index].ending == other.line_seq()[other_index].ending,
    {
        let left = self.line_seq()[index];
        let right = other.line_seq()[other_index];
        assert(is_line_of(self.data(), left));
        assert(is_line_of(other.data(), right));
        let full = self.line_full(left);
        let width = full.len() as int;
        assert(full[width - 1] == self.data()[left.full_bytes.end - 1]);
        assert(full[width - 1] == other.data()[right.full_bytes.end - 1]);
        if width > 1 {
            assert(full[width - 2] == self.data()[left.full_bytes.end - 2]);
            assert(full[width - 2] == other.data()[right.full_bytes.end - 2]);
        }
        assert(left.ending == right.ending);
        let content = width - ending_width(left.ending);
        assert(self.line_content(left) =~= full.take(content));
        assert(other.line_content(right) =~= full.take(content));
    }

    /// The content of every line starts and ends at character boundaries.
    pub proof fn lemma_line_boundaries(&self, index: int)
        requires
            self.wf(),
            0 <= index < self.line_seq().len(),
        ensures
            is_char_boundary(
                self.data(),
                self.line_seq()[index].content_bytes.start as int,
            ),
            is_char_boundary(self.data(), self.line_seq()[index].content_bytes.end as int),
    {
        let data = self.data();
        let line = self.line_seq()[index];
        encode_utf8_valid_utf8(self.text@);
        is_char_boundary_start_end_of_seq(data);
        assert(is_line_of(data, line));
        if index > 0 {
            let previous = self.line_seq()[index - 1];
            assert(is_line_of(data, previous));
            lemma_line_end_newline(data, previous.full_bytes.start as int);
            lemma_ascii_boundaries(data, previous.full_bytes.end - 1);
        }
        let end = line.content_bytes.end as int;
        match line.ending {
            LineEnding::Missing => {
                lemma_line_end_newline(data, line.full_bytes.start as int);
            },
            LineEnding::Lf => {
                lemma_ascii_boundaries(data, end);
            },
            LineEnding::CrLf => {
                lemma_ascii_boundaries(data, end);
            },
        }
    }
}

/// Lines that partition the same data agree wherever both exist.
proof fn lemma_lines_agree(
    data: Seq<u8>,
    left: Seq<SourceLine>,
    right: Seq<SourceLine>,
    index: int,
)
    requires
        lines_cover(data, left, data.len() as int),
        lines_cover(data, right, data.len() as int),
        0 <= index < left.len(),
        index < right.len(),
    ensures
        left[index] == right[index],
    decreases index,
{
    assert(is_line_of(data, left[index]));
    assert(is_line_of(data, right[index]));
    if index > 0 {
        lemma_lines_agree(data, left, right, index - 1);
        assert(left[index].full_bytes.start == left[index - 1].full_bytes.end);
        assert(right[index].full_bytes.start == right[index - 1].full_bytes.end);
    }
}

/// A line ends at the end of the data, or just past a line feed.
proof fn lemma_line_end_newline(data: Seq<u8>, start: int)
    requires
        0 <= start < data.len(),
    ensures
        start < line_end(data, start) <= data.len(),
        line_end(data, start) == data.len() || data[line_end(data, start) - 1] == NEWLINE,
    decreases data.len() - start,
{
    reveal_with_fuel(line_end, 2);
    if data[start] != NEWLINE && start + 1 < data.len() {
        lemma_line_end_newline(data, start + 1);
    }
}

} // verus!

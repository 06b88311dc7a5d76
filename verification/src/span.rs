//! Half-open ranges of byte offsets, line numbers, or indices.

use std::ops::Range;
use vstd::prelude::*;

verus! {

/// The positions from `start` up to but not including `end`.
#[derive(Clone, Copy, Debug, PartialEq, Eq, Structural)]
pub struct Span {
    pub start: usize,
    pub end: usize,
}

impl Span {
    /// Whether the position lies inside.
    pub open spec fn has(self, position: int) -> bool {
        self.start <= position < self.end
    }

    /// No position lies inside.
    pub open spec fn empty(self) -> bool {
        self.start >= self.end
    }

    pub fn new(start: usize, end: usize) -> (span: Span)
        ensures
            span == (Span { start, end }),
    {
        Span { start, end }
    }

    pub fn is_empty(self) -> (result: bool)
        ensures
            result == self.empty(),
    {
        self.start >= self.end
    }

    /// Count of positions.
    pub fn len(self) -> (len: usize)
        ensures
            len == if self.start <= self.end {
                self.end - self.start
            } else {
                0
            },
    {
        if self.start <= self.end {
            self.end - self.start
        } else {
            0
        }
    }

    pub fn contains(self, position: usize) -> (result: bool)
        ensures
            result == self.has(position as int),
    {
        self.start <= position && position < self.end
    }

    /// The same positions as a standard range.
    pub fn range(self) -> (range: Range<usize>)
        ensures
            range.start == self.start,
            range.end == self.end,
    {
        self.start..self.end
    }
}

} // verus!

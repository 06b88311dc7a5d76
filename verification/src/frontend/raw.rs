//! Parser nodes as a plain preorder arena, and lookups among their children.

use crate::grammar::{first_shallow, subtree_stop, RawEntry, RawNode};
use crate::span::Span;
use crate::text::same_str;
use vstd::prelude::*;

verus! {

/// Preorder parser nodes with the end of each subtree.
pub struct RawTree {
    pub entries: Vec<RawEntry>,
    pub ends: Vec<usize>,
}

proof fn lemma_stop_bounds(entries: Seq<RawEntry>, depth: int, from: int)
    requires
        0 <= from <= entries.len(),
    ensures
        from <= first_shallow(entries, depth, from) <= entries.len(),
        forall|k: int|
            from <= k < first_shallow(entries, depth, from) ==> (#[trigger] entries[k]).depth
                > depth,
        first_shallow(entries, depth, from) < entries.len() ==> entries[first_shallow(
            entries,
            depth,
            from,
        )].depth <= depth,
    decreases entries.len() - from,
{
    if from < entries.len() && entries[from].depth > depth {
        lemma_stop_bounds(entries, depth, from + 1);
    }
}

proof fn lemma_stop_skip(entries: Seq<RawEntry>, depth: int, from: int, to: int)
    requires
        0 <= from <= to <= entries.len(),
        forall|k: int| from <= k < to ==> (#[trigger] entries[k]).depth > depth,
    ensures
        first_shallow(entries, depth, from) == first_shallow(entries, depth, to),
    decreases to - from,
{
    if from < to {
        lemma_stop_skip(entries, depth, from + 1, to);
    }
}

impl RawTree {
    /// Each end is the end of the subtree in the preorder.
    pub open spec fn wf(self) -> bool {
        &&& self.ends@.len() == self.entries@.len()
        &&& forall|i: int|
            0 <= i < self.entries@.len() ==> (#[trigger] self.ends@[i]) == subtree_stop(
                self.entries@,
                i,
            ) && i < self.ends@[i] <= self.entries@.len()
    }

    /// Parser facts of a node.
    pub open spec fn at(self, index: int) -> RawNode {
        self.entries@[index].node
    }

    /// Find the end of every subtree.
    pub fn new(entries: Vec<RawEntry>) -> (tree: RawTree)
        ensures
            tree.wf(),
            tree.entries@ == entries@,
    {
        let count = entries.len();
        let mut ends: Vec<usize> = Vec::new();
        let mut fill: usize = 0;
        while fill < count
            invariant
                fill <= count,
                ends.len() == fill,
            decreases count - fill,
        {
            ends.push(0);
            fill += 1;
        }
        let mut index = count;
        while index > 0
            invariant
                index <= count,
                count == entries.len(),
                ends.len() == count,
                forall|i: int|
                    index <= i < count ==> (#[trigger] ends@[i]) == subtree_stop(entries@, i) && i
                        < ends@[i] <= count,
            decreases index,
        {
            index -= 1;
            let depth = entries[index].depth;
            let mut end: usize = index + 1;
            while end < count && entries[end].depth > depth
                invariant
                    index < end <= count,
                    count == entries.len(),
                    ends.len() == count,
                    depth == entries@[index as int].depth,
                    forall|i: int|
                        index < i < count ==> (#[trigger] ends@[i]) == subtree_stop(entries@, i)
                            && i < ends@[i] <= count,
                    first_shallow(entries@, depth as int, index + 1) == first_shallow(
                        entries@,
                        depth as int,
                        end as int,
                    ),
                decreases count - end,
            {
                let next = ends[end];
                proof {
                    let inner = entries@[end as int].depth as int;
                    lemma_stop_bounds(entries@, inner, end + 1);
                    assert forall|k: int| end <= k < next implies (
                    #[trigger] entries@[k]).depth > depth by {
                        if k > end {
                            assert(entries@[k].depth > inner);
                        }
                    }
                    lemma_stop_skip(entries@, depth as int, end as int, next as int);
                }
                end = next;
            }
            ends.set(index, end);
        }
        RawTree { entries, ends }
    }

    /// First node at or past `at` on the sibling chain whose incoming field has the name.
    pub open spec fn field_from(self, at: int, end: int, name: Seq<char>) -> Option<int>
        decreases self.ends@.len() - at,
    {
        if at < 0 || at >= end || at >= self.ends@.len() || !(at < self.ends@[at]
            <= self.ends@.len()) {
            None
        } else if self.at(at).field matches Some(field) && field@ == name {
            Some(at)
        } else {
            self.field_from(self.ends@[at] as int, end, name)
        }
    }

    /// First child that the named field leads to.
    pub open spec fn field_child(self, index: int, name: Seq<char>) -> Option<int> {
        self.field_from(index + 1, self.ends@[index] as int, name)
    }

    /// First child that the named field leads to.
    pub fn child_by_field(&self, index: usize, name: &str) -> (child: Option<usize>)
        requires
            self.wf(),
            index < self.entries@.len(),
        ensures
            match child {
                Some(child) => self.field_child(index as int, name@) == Some(child as int) && index
                    < child < self.ends@[index as int],
                None => self.field_child(index as int, name@) is None,
            },
    {
        let end = self.ends[index];
        let mut at: usize = index + 1;
        while at < end
            invariant
                self.wf(),
                index < at <= self.ends@.len(),
                index < self.entries@.len(),
                end == self.ends@[index as int],
                self.field_child(index as int, name@) == self.field_from(
                    at as int,
                    end as int,
                    name@,
                ),
            decreases self.ends@.len() - at,
        {
            if let Some(field) = self.entries[at].node.field {
                if same_str(field, name) {
                    return Some(at);
                }
            }
            at = self.ends[at];
        }
        None
    }

    /// First named node at or past `at` on the sibling chain with one of two kinds.
    pub open spec fn kind_from(
        self,
        at: int,
        end: int,
        first: Seq<char>,
        second: Seq<char>,
    ) -> Option<int>
        decreases self.ends@.len() - at,
    {
        if at < 0 || at >= end || at >= self.ends@.len() || !(at < self.ends@[at]
            <= self.ends@.len()) {
            None
        } else if self.at(at).named && (self.at(at).kind@ == first || self.at(at).kind@ == second) {
            Some(at)
        } else {
            self.kind_from(self.ends@[at] as int, end, first, second)
        }
    }

    /// First named child with one of two kinds.
    pub fn named_child_of_kind(&self, index: usize, first: &str, second: &str) -> (child: Option<
        usize,
    >)
        requires
            self.wf(),
            index < self.entries@.len(),
        ensures
            match child {
                Some(child) => self.kind_from(
                    index + 1,
                    self.ends@[index as int] as int,
                    first@,
                    second@,
                ) == Some(child as int) && index < child < self.ends@[index as int],
                None => self.kind_from(
                    index + 1,
                    self.ends@[index as int] as int,
                    first@,
                    second@,
                ) is None,
            },
    {
        let end = self.ends[index];
        let mut at: usize = index + 1;
        while at < end
            invariant
                self.wf(),
                index < at <= self.ends@.len(),
                index < self.entries@.len(),
                end == self.ends@[index as int],
                self.kind_from(index + 1, end as int, first@, second@) == self.kind_from(
                    at as int,
                    end as int,
                    first@,
                    second@,
                ),
            decreases self.ends@.len() - at,
        {
            let node = self.entries[at].node;
            if node.named && (same_str(node.kind, first) || same_str(node.kind, second)) {
                return Some(at);
            }
            at = self.ends[at];
        }
        None
    }

    /// Number of nodes.
    pub fn count(&self) -> (count: usize)
        ensures
            count == self.entries@.len(),
    {
        self.entries.len()
    }

    /// Grammar symbol of a node.
    pub fn kind(&self, index: usize) -> (kind: &'static str)
        requires
            index < self.entries@.len(),
        ensures
            kind == self.at(index as int).kind,
    {
        self.entries[index].node.kind
    }

    /// Whether a node has the given grammar symbol.
    pub fn is_kind(&self, index: usize, kind: &str) -> (result: bool)
        requires
            index < self.entries@.len(),
        ensures
            result == (self.at(index as int).kind@ == kind@),
    {
        same_str(self.entries[index].node.kind, kind)
    }

    /// Byte range of a node.
    pub open spec fn bytes_of(self, index: int) -> Span {
        Span { start: self.at(index).start, end: self.at(index).end }
    }

    /// Byte range of a node.
    pub fn bytes(&self, index: usize) -> (span: Span)
        requires
            index < self.entries@.len(),
        ensures
            span == self.bytes_of(index as int),
    {
        Span { start: self.entries[index].node.start, end: self.entries[index].node.end }
    }

    /// Byte range of an optional node.
    pub fn optional_bytes(&self, index: Option<usize>) -> (span: Option<Span>)
        requires
            index matches Some(index) ==> index < self.entries@.len(),
        ensures
            match index {
                Some(index) => span == Some(self.bytes_of(index as int)),
                None => span is None,
            },
    {
        match index {
            Some(index) => Some(self.bytes(index)),
            None => None,
        }
    }
}

} // verus!

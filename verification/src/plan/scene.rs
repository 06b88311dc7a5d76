//! Revisions, their matches, and node facts that planning reads.

use crate::correspondence::links::{MatchedUnit, NodeLink};
use crate::correspondence::Correspondence;
use crate::plan::order::LineAlignment;
use crate::span::Span;
use crate::syntax::{ContentChannel, NodeId, SyntaxNode, SyntaxPair, SyntaxTree};
use vstd::prelude::*;

verus! {

/// What a subtree holds.
#[derive(Clone, Copy, Debug, PartialEq, Eq, Structural)]
pub struct NodeAnchorFacts {
    pub has_opaque: bool,
    pub has_payload: bool,
}

/// Tree-wide subtree facts used to admit structural display anchors in constant time.
pub struct AnchorFacts {
    pub before: Vec<NodeAnchorFacts>,
    pub after: Vec<NodeAnchorFacts>,
}

/// The node itself is an opaque leaf.
pub open spec fn is_opaque(node: SyntaxNode) -> bool {
    node.leaf matches Some(leaf) && leaf.channel == ContentChannel::Opaque
}

/// The node itself is a leaf that carries payload.
pub open spec fn is_payload(node: SyntaxNode) -> bool {
    node.leaf matches Some(leaf) && leaf.channel != ContentChannel::Layout && !leaf.delimiter
}

/// Some child has an opaque leaf below it.
pub open spec fn child_opaque(facts: Seq<NodeAnchorFacts>, children: Seq<NodeId>) -> bool {
    exists|k: int| 0 <= k < children.len() && facts[(#[trigger] children[k]) as int].has_opaque
}

/// Some child has a payload leaf below it.
pub open spec fn child_payload(facts: Seq<NodeAnchorFacts>, children: Seq<NodeId>) -> bool {
    exists|k: int| 0 <= k < children.len() && facts[(#[trigger] children[k]) as int].has_payload
}

/// The facts of a node follow from its own leaf and from its children.
pub open spec fn fact_holds(tree: SyntaxTree, facts: Seq<NodeAnchorFacts>, id: int) -> bool {
    let node = tree.nodes@[id];
    &&& facts[id].has_opaque == (is_opaque(node) || child_opaque(facts, node.children@))
    &&& facts[id].has_payload == (is_payload(node) || child_payload(facts, node.children@))
}

/// One fact per node.
pub open spec fn facts_hold(tree: SyntaxTree, facts: Seq<NodeAnchorFacts>) -> bool {
    &&& facts.len() == tree.nodes@.len()
    &&& forall|id: int| 0 <= id < facts.len() ==> #[trigger] fact_holds(tree, facts, id)
}

/// Facts of every subtree.
fn tree_anchor_facts(tree: &SyntaxTree) -> (facts: Vec<NodeAnchorFacts>)
    requires
        tree.wf(),
    ensures
        facts_hold(*tree, facts@),
{
    let count = tree.nodes.len();
    let mut facts: Vec<NodeAnchorFacts> = Vec::new();
    let mut filled: usize = 0;
    while filled < count
        invariant
            filled <= count,
            facts@.len() == filled,
        decreases count - filled,
    {
        facts.push(NodeAnchorFacts { has_opaque: false, has_payload: false });
        filled += 1;
    }
    let mut index = count;
    while index > 0
        invariant
            tree.wf(),
            count == tree.nodes@.len(),
            index <= count,
            facts@.len() == count,
            forall|id: int| index <= id < count ==> #[trigger] fact_holds(*tree, facts@, id),
        decreases index,
    {
        index -= 1;
        let node = &tree.nodes[index];
        let mut fact = match node.leaf {
            Some(leaf) => NodeAnchorFacts {
                has_opaque: matches!(leaf.channel, ContentChannel::Opaque),
                has_payload: !matches!(leaf.channel, ContentChannel::Layout) && !leaf.delimiter,
            },
            None => NodeAnchorFacts { has_opaque: false, has_payload: false },
        };
        let mut at: usize = 0;
        proof {
            assert(crate::syntax::children_hold(tree.nodes@, index as int));
        }
        while at < node.children.len()
            invariant
                tree.wf(),
                count == tree.nodes@.len(),
                index < count,
                facts@.len() == count,
                *node == tree.nodes@[index as int],
                crate::syntax::children_hold(tree.nodes@, index as int),
                at <= node.children@.len(),
                fact.has_opaque == (is_opaque(*node) || child_opaque(
                    facts@,
                    node.children@.take(at as int),
                )),
                fact.has_payload == (is_payload(*node) || child_payload(
                    facts@,
                    node.children@.take(at as int),
                )),
            decreases node.children@.len() - at,
        {
            let child = node.children[at];
            proof {
                assert(node.children[at as int] == child);
                assert(crate::syntax::node_fits(
                    tree.nodes@[index as int],
                    index as int,
                    count as int,
                    tree.source.data().len() as int,
                ));
            }
            let below = facts[child];
            let ghost earlier = node.children@.take(at as int);
            let ghost later = node.children@.take(at + 1);
            proof {
                assert(later =~= earlier.push(child));
                if child_opaque(facts@, later) {
                    let k = choose|k: int|
                        0 <= k < later.len() && facts@[(#[trigger] later[k]) as int].has_opaque;
                    if k < at {
                        assert(facts@[earlier[k] as int].has_opaque);
                    }
                }
                if child_opaque(facts@, earlier) {
                    let k = choose|k: int|
                        0 <= k < earlier.len() && facts@[(#[trigger] earlier[k]) as int].has_opaque;
                    assert(facts@[later[k] as int].has_opaque);
                }
                if child_payload(facts@, later) {
                    let k = choose|k: int|
                        0 <= k < later.len() && facts@[(#[trigger] later[k]) as int].has_payload;
                    if k < at {
                        assert(facts@[earlier[k] as int].has_payload);
                    }
                }
                if child_payload(facts@, earlier) {
                    let k = choose|k: int|
                        0 <= k < earlier.len() && facts@[(#[trigger] earlier[k]) as int].has_payload;
                    assert(facts@[later[k] as int].has_payload);
                }
                assert(later[at as int] == child);
            }
            fact =
            NodeAnchorFacts {
                has_opaque: fact.has_opaque || below.has_opaque,
                has_payload: fact.has_payload || below.has_payload,
            };
            at += 1;
        }
        let ghost earlier = facts@;
        facts.set(index, fact);
        proof {
            assert(node.children@.take(at as int) =~= node.children@);
            lemma_facts_above(*tree, earlier, facts@, index as int);
        }
    }
    proof {
        assert(forall|id: int| 0 <= id < facts@.len() ==> #[trigger] fact_holds(*tree, facts@, id));
    }
    facts
}

/// Setting the facts of a node keeps those of later nodes, whose children come later still.
proof fn lemma_facts_above(
    tree: SyntaxTree,
    earlier: Seq<NodeAnchorFacts>,
    later: Seq<NodeAnchorFacts>,
    index: int,
)
    requires
        tree.wf(),
        earlier.len() == tree.nodes@.len(),
        0 <= index < earlier.len(),
        later == earlier.update(index, later[index]),
        forall|id: int| index < id < earlier.len() ==> #[trigger] fact_holds(tree, earlier, id),
        later[index].has_opaque == (is_opaque(tree.nodes@[index]) || child_opaque(
            earlier,
            tree.nodes@[index].children@,
        )),
        later[index].has_payload == (is_payload(tree.nodes@[index]) || child_payload(
            earlier,
            tree.nodes@[index].children@,
        )),
    ensures
        forall|id: int| index <= id < later.len() ==> #[trigger] fact_holds(tree, later, id),
{
    assert forall|id: int| index <= id < later.len() implies #[trigger] fact_holds(
        tree,
        later,
        id,
    ) by {
        let node = tree.nodes@[id];
        let children = node.children@;
        assert(crate::syntax::children_hold(tree.nodes@, id));
        assert(crate::syntax::node_fits(
            tree.nodes@[id],
            id,
            tree.nodes@.len() as int,
            tree.source.data().len() as int,
        ));
        assert forall|k: int| 0 <= k < children.len() implies later[(
        #[trigger] children[k]) as int] == earlier[children[k] as int] by {
            assert(id < node.children[k] < node.subtree_end);
        }
        assert(child_opaque(later, children) == child_opaque(earlier, children)) by {
            if child_opaque(later, children) {
                let k = choose|k: int|
                    0 <= k < children.len() && later[(#[trigger] children[k]) as int].has_opaque;
                assert(earlier[children[k] as int].has_opaque);
            }
            if child_opaque(earlier, children) {
                let k = choose|k: int|
                    0 <= k < children.len() && earlier[(#[trigger] children[k]) as int].has_opaque;
                assert(later[children[k] as int].has_opaque);
            }
        }
        assert(child_payload(later, children) == child_payload(earlier, children)) by {
            if child_payload(later, children) {
                let k = choose|k: int|
                    0 <= k < children.len() && later[(#[trigger] children[k]) as int].has_payload;
                assert(earlier[children[k] as int].has_payload);
            }
            if child_payload(earlier, children) {
                let k = choose|k: int|
                    0 <= k < children.len() && earlier[(#[trigger] children[k]) as int].has_payload;
                assert(later[children[k] as int].has_payload);
            }
        }
        if id > index {
            assert(fact_holds(tree, earlier, id));
        }
    }
}

impl AnchorFacts {
    pub open spec fn describes(self, pair: SyntaxPair) -> bool {
        facts_hold(pair.before, self.before@) && facts_hold(pair.after, self.after@)
    }

    pub fn new(pair: &SyntaxPair) -> (facts: AnchorFacts)
        requires
            pair.wf(),
        ensures
            facts.describes(*pair),
    {
        AnchorFacts {
            before: tree_anchor_facts(&pair.before),
            after: tree_anchor_facts(&pair.after),
        }
    }
}

/// Everything that planning reads.
#[derive(Clone, Copy)]
pub struct PlanScene<'a> {
    pub pair: &'a SyntaxPair,
    pub graph: &'a Correspondence,
    pub anchors: &'a AnchorFacts,
}

impl PlanScene<'_> {
    pub open spec fn wf(self) -> bool {
        &&& self.pair.wf()
        &&& self.graph.wf(*self.pair)
        &&& self.anchors.describes(*self.pair)
    }

    /// Number of old lines.
    pub open spec fn before_count(self) -> int {
        self.pair.before.source.line_seq().len() as int
    }

    /// Number of current lines.
    pub open spec fn after_count(self) -> int {
        self.pair.after.source.line_seq().len() as int
    }

    /// The matched unit points at existing nodes and links.
    pub open spec fn unit_fits(self, unit: MatchedUnit) -> bool {
        &&& unit.before < self.pair.before.nodes@.len()
        &&& unit.after < self.pair.after.nodes@.len()
        &&& unit.leaf_links.start <= unit.leaf_links.end <= self.graph.tree.leaves.links@.len()
        &&& unit.composites.start <= unit.composites.end <= self.graph.tree.composites@.len()
    }

    /// Coordinates shared by old and current rows.
    pub fn alignment(&self) -> (alignment: LineAlignment<'_>)
        requires
            self.wf(),
        ensures
            alignment.wf(),
            alignment.before_lines == self.before_count(),
            alignment.after_lines == self.after_count(),
            *alignment.lines == self.graph.source.lines,
            *alignment.endings == self.graph.source.line_endings,
    {
        proof {
            self.pair.before.source.lemma_line_count();
            self.pair.after.source.lemma_line_count();
            assert forall|k: int| 0 <= k < self.graph.source.lines@.len() implies (
            #[trigger] self.graph.source.lines@[k]).before < self.before_count()
                && self.graph.source.lines@[k].after < self.after_count() by {
                assert(crate::correspondence::lines::link_fits(
                    *self.pair,
                    self.graph.source.lines@[k],
                ));
            }
            assert forall|k: int| 0 <= k < self.graph.source.line_endings@.len() implies (
            #[trigger] self.graph.source.line_endings@[k]).before < self.before_count()
                && self.graph.source.line_endings@[k].after < self.after_count() by {
                assert(crate::correspondence::lines::link_fits(
                    *self.pair,
                    self.graph.source.line_endings@[k],
                ));
            }
        }
        LineAlignment {
            lines: &self.graph.source.lines,
            endings: &self.graph.source.line_endings,
            before_lines: self.pair.before.source.line_count(),
            after_lines: self.pair.after.source.line_count(),
        }
    }

    /// Decoration subtrees inherit presentation from their semantic owner.
    pub fn link_belongs_to_decoration(&self, link: &NodeLink) -> (result: bool)
        requires
            self.pair.wf(),
            self.pair.before.has_node(link.before as int),
            self.pair.after.has_node(link.after as int),
        ensures
            result == (in_decoration(self.pair.before, link.before as int) || in_decoration(
                self.pair.after,
                link.after as int,
            )),
    {
        node_belongs_to_decoration(&self.pair.before, link.before) || node_belongs_to_decoration(
            &self.pair.after,
            link.after,
        )
    }
}

/// The node or one of its ancestors decorates another node.
pub open spec fn in_decoration(tree: SyntaxTree, id: int) -> bool
    decreases id,
{
    tree.nodes@[id].decoration_owner is Some || (tree.nodes@[id].parent matches Some(parent)
        && parent < id && in_decoration(tree, parent as int))
}

pub fn node_belongs_to_decoration(tree: &SyntaxTree, id: NodeId) -> (result: bool)
    requires
        tree.wf(),
        tree.has_node(id as int),
    ensures
        result == in_decoration(*tree, id as int),
{
    let mut current = id;
    while tree.nodes[current].decoration_owner.is_none()
        invariant
            tree.wf(),
            tree.has_node(current as int),
            in_decoration(*tree, id as int) == in_decoration(*tree, current as int),
        decreases current,
    {
        proof {
            assert(crate::syntax::parent_holds(tree.nodes@, current as int));
        }
        match tree.nodes[current].parent {
            Some(parent) => {
                current = parent;
            },
            None => {
                return false;
            },
        }
    }
    true
}

/// Only spaces and tabs.
pub open spec fn is_horizontal(bytes: Seq<u8>) -> bool {
    forall|i: int| 0 <= i < bytes.len() ==> (#[trigger] bytes[i]) == 32 || bytes[i] == 9
}

/// Whether a range of a text holds only spaces and tabs.
pub fn horizontal_layout(bytes: &[u8], start: usize, end: usize) -> (result: bool)
    requires
        start <= end <= bytes@.len(),
    ensures
        result == is_horizontal(bytes@.subrange(start as int, end as int)),
{
    let mut at = start;
    while at < end
        invariant
            start <= at <= end <= bytes@.len(),
            forall|i: int| start <= i < at ==> (#[trigger] bytes@[i]) == 32 || bytes@[i] == 9,
        decreases end - at,
    {
        if bytes[at] != 32 && bytes[at] != 9 {
            assert(bytes@.subrange(start as int, end as int)[at - start] == bytes@[at as int]);
            return false;
        }
        at += 1;
    }
    true
}

/// Nothing but indentation shares the first and last line of the node; a node that owns its
/// last terminator ends exactly behind it.
pub open spec fn line_isolated(tree: SyntaxTree, id: int, owns_terminator: bool) -> bool {
    let node = tree.nodes@[id];
    let lines = tree.source.line_seq();
    let first = lines[node.lines.start - 1];
    let last = lines[node.lines.end - 2];
    &&& 1 <= node.lines.start <= lines.len()
    &&& 2 <= node.lines.end <= lines.len() + 1
    &&& first.content_bytes.start <= node.bytes.start
    &&& node.bytes.end <= last.content_bytes.end || (owns_terminator && node.bytes.end
        == last.full_bytes.end)
    &&& is_horizontal(
        tree.source.data().subrange(first.content_bytes.start as int, node.bytes.start as int),
    )
    &&& node.bytes.end < last.content_bytes.end ==> is_horizontal(
        tree.source.data().subrange(node.bytes.end as int, last.content_bytes.end as int),
    )
}

/// Retaining a subtree may claim whole rows only when adjacent bytes are indentation.
pub fn node_is_line_isolated(tree: &SyntaxTree, id: NodeId, owns_terminator: bool) -> (result: bool)
    requires
        tree.wf(),
        tree.has_node(id as int),
    ensures
        result == line_isolated(*tree, id as int, owns_terminator),
{
    let node = &tree.nodes[id];
    proof {
        assert(crate::syntax::node_fits(
            tree.nodes@[id as int],
            id as int,
            tree.nodes@.len() as int,
            tree.source.data().len() as int,
        ));
    }
    let count = tree.source.line_count();
    if node.lines.start > count || node.lines.end < 2 || node.lines.end - 1 > count {
        return false;
    }
    let first = tree.source.lines()[node.lines.start - 1];
    let last = tree.source.lines()[node.lines.end - 2];
    proof {
        assert(crate::source::is_line_of(tree.source.data(), first));
        assert(crate::source::is_line_of(tree.source.data(), last));
    }
    if node.bytes.start < first.content_bytes.start {
        return false;
    }
    if node.bytes.end > last.content_bytes.end && (!owns_terminator || node.bytes.end
        != last.full_bytes.end) {
        return false;
    }
    let bytes = tree.source.as_bytes();
    if !horizontal_layout(bytes, first.content_bytes.start, node.bytes.start) {
        return false;
    }
    node.bytes.end >= last.content_bytes.end || horizontal_layout(
        bytes,
        node.bytes.end,
        last.content_bytes.end,
    )
}

/// Rows of equal length with equal bytes.
pub open spec fn rows_equal(pair: SyntaxPair, before: Span, after: Span) -> bool {
    &&& before.end - before.start == after.end - after.start
    &&& forall|k: int|
        0 <= k < before.end - before.start ==> #[trigger] row_pair_equal(
            pair,
            before.start + k,
            after.start + k,
        )
}

/// Two rows have the same bytes, terminator included.
pub open spec fn row_pair_equal(pair: SyntaxPair, before: int, after: int) -> bool {
    pair.before.source.line_full(pair.before.source.line_seq()[before])
        == pair.after.source.line_full(pair.after.source.line_seq()[after])
}

/// Whether two row ranges hold the same lines.
pub fn physical_lines_equal(pair: &SyntaxPair, before: Span, after: Span) -> (result: bool)
    requires
        pair.wf(),
        before.start <= before.end <= pair.before.source.line_seq().len(),
        after.start <= after.end <= pair.after.source.line_seq().len(),
    ensures
        result == rows_equal(*pair, before, after),
{
    if before.len() != after.len() {
        return false;
    }
    let mut offset: usize = 0;
    while offset < before.len()
        invariant
            pair.wf(),
            before.start <= before.end <= pair.before.source.line_seq().len(),
            after.start <= after.end <= pair.after.source.line_seq().len(),
            before.end - before.start == after.end - after.start,
            offset <= before.end - before.start,
            forall|k: int|
                0 <= k < offset ==> #[trigger] row_pair_equal(
                    *pair,
                    before.start + k,
                    after.start + k,
                ),
        decreases before.end - before.start - offset,
    {
        if !pair.before.source.same_full_text(
            before.start + offset,
            &pair.after.source,
            after.start + offset,
        ) {
            assert(!row_pair_equal(*pair, before.start + offset, after.start + offset));
            return false;
        }
        offset += 1;
    }
    true
}

/// Terminators agree row by row, as far as both ranges reach.
pub open spec fn endings_agree(pair: SyntaxPair, before: Span, after: Span) -> bool {
    forall|k: int|
        0 <= k < before.end - before.start && k < after.end - after.start
            ==> #[trigger] row_endings_equal(pair, before.start + k, after.start + k)
}

pub open spec fn row_endings_equal(pair: SyntaxPair, before: int, after: int) -> bool {
    pair.before.source.line_seq()[before].ending == pair.after.source.line_seq()[after].ending
}

/// Whether two row ranges have the same terminators.
pub fn same_line_endings(pair: &SyntaxPair, before: Span, after: Span) -> (result: bool)
    requires
        before.start <= before.end <= pair.before.source.line_seq().len(),
        after.start <= after.end <= pair.after.source.line_seq().len(),
    ensures
        result == endings_agree(*pair, before, after),
{
    let mut offset: usize = 0;
    while offset < before.len() && offset < after.len()
        invariant
            before.start <= before.end <= pair.before.source.line_seq().len(),
            after.start <= after.end <= pair.after.source.line_seq().len(),
            offset <= before.end - before.start,
            offset <= after.end - after.start,
            forall|k: int|
                0 <= k < offset ==> #[trigger] row_endings_equal(
                    *pair,
                    before.start + k,
                    after.start + k,
                ),
        decreases before.end - before.start - offset,
    {
        let old_ending = pair.before.source.lines()[before.start + offset].ending;
        let new_ending = pair.after.source.lines()[after.start + offset].ending;
        if old_ending != new_ending {
            assert(!row_endings_equal(*pair, before.start + offset, after.start + offset));
            return false;
        }
        offset += 1;
    }
    true
}

} // verus!

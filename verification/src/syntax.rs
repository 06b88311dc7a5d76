//! Parser-independent syntax trees over exact source geometry.

use crate::source::Source;
use crate::span::Span;
use crate::text::same_str;
use vstd::prelude::*;
use vstd::utf8::*;

verus! {

/// Arena position of a node; parsers never expose their own handles.
pub type NodeId = usize;

/// Coarse language syntax category understood by the terminal palette.
#[derive(Clone, Copy, Debug, PartialEq, Eq, Structural)]
pub enum SyntaxClass {
    Plain,
    Keyword,
    Identifier,
    Type,
    Literal,
    String,
    Comment,
    Punctuation,
}

/// Parser chosen from the file path, or the universal line tree.
#[derive(Clone, Copy, Debug, PartialEq, Eq, Structural)]
pub enum Language {
    Lines,
    Rust,
    Html,
    Css,
    TypeScript,
    Tsx,
    JavaScript,
    Jsx,
    C,
}

/// Revision whose parse prevented symmetric syntax correspondence.
#[derive(Clone, Copy, Debug, PartialEq, Eq, Structural)]
pub enum ParseSide {
    Before,
    After,
    Both,
}

/// Why a pair could not safely use its selected syntax grammar.
#[derive(Clone, Copy, Debug, PartialEq, Eq, Structural)]
pub enum FallbackReason {
    Generated,
    Unsupported,
    ParseError(ParseSide),
    SyntaxComplexity(ParseSide),
}

/// Whether an arena came from a complete parse, accepted recovery, or exact line fallback.
#[derive(Clone, Copy, Debug, PartialEq, Eq, Structural)]
pub enum ProjectionHealth {
    Parsed,
    /// Byte-total grammar recovery accepted by the language adapter.
    Recovered,
    Fallback(FallbackReason),
}

/// Whether leaf payload participates as syntax, commentary, or exact opaque text.
#[derive(Clone, Copy, Debug, PartialEq, Eq, Structural)]
pub enum ContentChannel {
    Syntax,
    Comment,
    Opaque,
    /// Parser-omitted formatting that must remain renderable but not semantic.
    Layout,
}

/// How one independently matched review unit is compared and presented.
#[derive(Clone, Copy, Debug, PartialEq, Eq, Structural)]
pub enum ReviewMode {
    /// Structure-aware content eligible for move and reflow detection.
    StructureAware,
    /// Low-signal content kept compact when its replacement fits one line.
    Compact,
    /// Content compared and presented through physical lines.
    Linewise,
}

impl ReviewMode {
    /// Only structural content is reported as moved.
    pub fn tracks_movement(self) -> (result: bool)
        ensures
            result == (self == ReviewMode::StructureAware),
    {
        matches!(self, ReviewMode::StructureAware)
    }

    /// A shared mode is kept; mixed modes require exact line review.
    pub open spec fn reconciled(before: ReviewMode, after: ReviewMode) -> ReviewMode {
        if before == after {
            before
        } else {
            ReviewMode::Linewise
        }
    }

    /// Preserve a shared mode; mixed frontend classifications require exact line review.
    pub fn reconcile(before: ReviewMode, after: ReviewMode) -> (mode: ReviewMode)
        ensures
            mode == Self::reconciled(before, after),
            Self::reconciled(before, after) == Self::reconciled(after, before),
    {
        if before == after {
            before
        } else {
            ReviewMode::Linewise
        }
    }
}

/// Parser-omitted layout that a unit owns for source-completeness certification.
#[derive(Clone, Copy, Debug, PartialEq, Eq, Structural)]
pub enum LayoutOwnership {
    Nothing,
    AdjacentBlankLines,
}

/// Frontend-selected review behavior and layout ownership for one syntax node.
#[derive(Clone, Copy, Debug, PartialEq, Eq, Structural)]
pub struct ReviewUnit {
    pub mode: ReviewMode,
    pub layout: LayoutOwnership,
}

/// How strictly a node fences the correspondence of its descendants.
#[derive(Clone, Copy, Debug, PartialEq, Eq, Structural)]
pub enum CorrespondenceRole {
    /// Ordinary grammar structure, matched in sibling order.
    Transparent,
    /// Occurrence matched among its siblings before its contents are consulted.
    LocalOwner,
    /// Semantic container whose contents match only inside its partner.
    HardOwner,
}

/// What a concrete leaf contributes to matching evidence.
#[derive(Clone, Copy, Debug, PartialEq, Eq, Structural)]
pub enum LeafRole {
    Payload,
    Identifier,
    Grammar,
}

/// Concrete leaf metadata; its payload stays in the source.
#[derive(Clone, Copy, Debug, PartialEq, Eq, Structural)]
pub struct Leaf {
    pub syntax: SyntaxClass,
    pub channel: ContentChannel,
    /// Grammar delimiter status, kept independent of terminal highlighting.
    pub delimiter: bool,
    pub role: LeafRole,
}

/// One neutral syntax occurrence with exact source geometry and ordered containment.
#[derive(Clone, Debug, PartialEq, Eq)]
pub struct SyntaxNode {
    /// Grammar symbol name, or a literal in a synthetic tree.
    pub kind: &'static str,
    /// Grammar name of this node's incoming field edge.
    pub slot: Option<&'static str>,
    pub bytes: Span,
    /// One-based half-open line coverage.
    pub lines: Span,
    pub parent: Option<NodeId>,
    pub children: Vec<NodeId>,
    /// End of the contiguous arena range that holds this node and its descendants.
    pub subtree_end: NodeId,
    pub leaf: Option<Leaf>,
    /// Exact source spelling used to disambiguate same-shaped nodes.
    pub identity: Option<Span>,
    /// Semantic node decorated by this occurrence, independent of source extent.
    pub decoration_owner: Option<NodeId>,
    /// Presence promotes this node to an independently matched review unit.
    pub review: Option<ReviewUnit>,
    pub correspondence: CorrespondenceRole,
    pub named: bool,
    pub extra: bool,
    pub missing: bool,
}

impl SyntaxNode {
    /// Whether wrapper recovery may not pass through this node.
    pub fn seals_wrappers(&self) -> (result: bool)
        ensures
            result == (self.correspondence == CorrespondenceRole::HardOwner),
    {
        self.correspondence == CorrespondenceRole::HardOwner
    }

    /// Whether this node fences the lines and descendants that it contains.
    pub fn is_scope_boundary(&self) -> (result: bool)
        ensures
            result == (self.correspondence == CorrespondenceRole::HardOwner),
    {
        self.correspondence == CorrespondenceRole::HardOwner
    }

    /// Whether siblings of this node are matched by grammar order alone.
    pub fn is_ordered_syntax(&self) -> (result: bool)
        ensures
            result == (self.correspondence == CorrespondenceRole::Transparent),
    {
        self.correspondence == CorrespondenceRole::Transparent
    }

    /// Named structure that holds other nodes.
    pub open spec fn is_composite(self) -> bool {
        self.named && self.leaf is None
    }

    /// Named structure that holds other nodes.
    pub fn composite(&self) -> (result: bool)
        ensures
            result == self.is_composite(),
    {
        self.named && self.leaf.is_none()
    }

    /// Formatting without meaning.
    pub open spec fn is_layout(self) -> bool {
        self.leaf matches Some(leaf) && leaf.channel == ContentChannel::Layout
    }

    /// Formatting without meaning.
    pub fn layout_leaf(&self) -> (result: bool)
        ensures
            result == self.is_layout(),
    {
        match self.leaf {
            Some(leaf) => leaf.channel == ContentChannel::Layout,
            None => false,
        }
    }

    /// Grammar delimiter.
    pub open spec fn is_delimiter(self) -> bool {
        self.leaf matches Some(leaf) && leaf.delimiter
    }

    /// A delimiter that separates siblings.
    pub open spec fn trails_sibling(self) -> bool {
        self.is_delimiter() && (self.kind@ == ","@ || self.kind@ == ";"@)
    }

    /// Delimiter or layout between two pieces of syntax.
    pub open spec fn is_separator(self) -> bool {
        self.is_delimiter() || self.is_layout()
    }

    /// Payload that takes part in matching.
    pub open spec fn is_content_leaf(self) -> bool {
        self.leaf is Some && !self.is_layout()
    }

    /// Payload that takes part in matching.
    pub fn content_leaf(&self) -> (result: bool)
        ensures
            result == self.is_content_leaf(),
    {
        self.leaf.is_some() && !self.layout_leaf()
    }
}

/// Facts about one arena entry that hold on their own.
pub open spec fn node_fits(node: SyntaxNode, index: int, count: int, byte_len: int) -> bool {
    &&& index < node.subtree_end <= count
    &&& node.bytes.start <= node.bytes.end <= byte_len
    &&& 1 <= node.lines.start <= node.lines.end
    &&& node.identity matches Some(span) ==> span.start <= span.end <= byte_len
    &&& node.decoration_owner matches Some(owner) ==> owner < count
    &&& node.leaf is Some ==> node.children.len() == 0
}

/// The parent holds this entry inside its own arena range.
pub open spec fn parent_holds(nodes: Seq<SyntaxNode>, index: int) -> bool {
    match nodes[index].parent {
        Some(parent) => parent < index && nodes[index].subtree_end
            <= nodes[parent as int].subtree_end,
        None => index == 0,
    }
}

/// The children ascend inside the node's arena range and name it as their parent.
pub open spec fn children_hold(nodes: Seq<SyntaxNode>, index: int) -> bool {
    let node = nodes[index];
    &&& forall|k: int|
        0 <= k < node.children.len() ==> index < (#[trigger] node.children[k]) < node.subtree_end
            && nodes[node.children[k] as int].parent == Some(index as usize)
    &&& forall|k: int, l: int|
        0 <= k < l < node.children.len() ==> (#[trigger] node.children[k]) < (
        #[trigger] node.children[l])
}

/// A preorder arena: every subtree is the contiguous range that starts at its root.
pub open spec fn arena_wf(nodes: Seq<SyntaxNode>, byte_len: int) -> bool {
    &&& 0 < nodes.len() < usize::MAX
    &&& nodes[0].subtree_end == nodes.len()
    &&& forall|i: int|
        0 <= i < nodes.len() ==> node_fits(#[trigger] nodes[i], i, nodes.len() as int, byte_len)
    &&& forall|i: int| 0 <= i < nodes.len() ==> #[trigger] parent_holds(nodes, i)
    &&& forall|i: int| 0 <= i < nodes.len() ==> #[trigger] children_hold(nodes, i)
}

/// Source plus a parser-independent arena.
#[derive(Clone, Debug, PartialEq, Eq)]
pub struct SyntaxTree {
    pub source: Source,
    pub language: Language,
    pub health: ProjectionHealth,
    pub root: NodeId,
    pub nodes: Vec<SyntaxNode>,
    /// Leaf positions in arena order, which is source order.
    pub leaves: Vec<NodeId>,
}

/// Positions of the leaves, in arena order.
pub open spec fn leaf_positions(nodes: Seq<SyntaxNode>, end: int) -> Seq<NodeId>
    decreases end,
{
    if end <= 0 {
        Seq::empty()
    } else if nodes[end - 1].leaf is Some {
        leaf_positions(nodes, end - 1).push((end - 1) as usize)
    } else {
        leaf_positions(nodes, end - 1)
    }
}

pub proof fn lemma_leaf_positions(nodes: Seq<SyntaxNode>, end: int)
    requires
        0 <= end <= nodes.len() <= usize::MAX,
    ensures
        forall|k: int|
            0 <= k < leaf_positions(nodes, end).len() ==> (#[trigger] leaf_positions(nodes, end)[k])
                < end && nodes[leaf_positions(nodes, end)[k] as int].leaf is Some,
        forall|k: int, l: int|
            0 <= k < l < leaf_positions(nodes, end).len() ==> (#[trigger] leaf_positions(
                nodes,
                end,
            )[k]) < (#[trigger] leaf_positions(nodes, end)[l]),
        forall|i: int|
            0 <= i < end && (#[trigger] nodes[i]).leaf is Some ==> leaf_positions(
                nodes,
                end,
            ).contains(i as usize),
    decreases end,
{
    if end > 0 {
        lemma_leaf_positions(nodes, end - 1);
        let fewer = leaf_positions(nodes, end - 1);
        let all = leaf_positions(nodes, end);
        assert forall|i: int| 0 <= i < end && (#[trigger] nodes[i]).leaf is Some implies all.contains(
            i as usize,
        ) by {
            if i < end - 1 {
                let at = choose|at: int| 0 <= at < fewer.len() && fewer[at] == i as usize;
                assert(all[at] == i as usize);
            } else {
                assert(all.last() == i as usize);
            }
        }
    }
}

impl SyntaxTree {
    /// Leaf positions in arena order.
    pub open spec fn leaf_seq(self) -> Seq<NodeId> {
        self.leaves@
    }

    /// The source and arena are consistent.
    pub open spec fn wf(self) -> bool {
        &&& self.source.wf()
        &&& self.root == 0
        &&& arena_wf(self.nodes@, self.source.data().len() as int)
        &&& self.leaf_seq() == leaf_positions(self.nodes@, self.nodes@.len() as int)
    }

    /// The handle names an arena entry.
    pub open spec fn has_node(self, id: int) -> bool {
        0 <= id < self.nodes@.len()
    }

    /// The node lies in the subtree of the ancestor, which includes the ancestor itself.
    pub open spec fn in_subtree(self, ancestor: int, node: int) -> bool {
        ancestor <= node < self.nodes@[ancestor].subtree_end
    }

    /// Complete a preorder arena, or refuse one whose containment is inconsistent.
    pub fn from_nodes(
        source: Source,
        language: Language,
        health: ProjectionHealth,
        nodes: Vec<SyntaxNode>,
    ) -> (tree: Option<SyntaxTree>)
        requires
            source.wf(),
        ensures
            tree is Some <==> arena_wf(nodes@, source.data().len() as int),
            tree matches Some(tree) ==> tree.wf() && tree.source == source && tree.language
                == language && tree.health == health && tree.nodes@ == nodes@,
    {
        if !check_arena(&nodes, source.byte_len()) {
            return None;
        }
        let mut leaves: Vec<NodeId> = Vec::new();
        let mut index: usize = 0;
        while index < nodes.len()
            invariant
                index <= nodes.len(),
                leaves@ == leaf_positions(nodes@, index as int),
            decreases nodes.len() - index,
        {
            if nodes[index].leaf.is_some() {
                leaves.push(index);
            }
            index += 1;
        }
        Some(SyntaxTree { source, language, health, root: 0, nodes, leaves })
    }

    /// Arena node for a tree-local handle.
    pub fn node(&self, id: NodeId) -> (node: &SyntaxNode)
        requires
            self.has_node(id as int),
        ensures
            *node == self.nodes@[id as int],
    {
        &self.nodes[id]
    }

    /// Whether exact line leaves stand in for a grammar.
    pub fn is_lines(&self) -> (result: bool)
        ensures
            result == (self.language == Language::Lines),
    {
        self.language == Language::Lines
    }

    /// Original payload of a concrete leaf, including a zero-width missing token.
    pub fn leaf_text(&self, id: NodeId) -> (text: Option<&str>)
        requires
            self.has_node(id as int),
        ensures
            self.nodes@[id as int].leaf is None ==> text is None,
            text matches Some(text) ==> encode_utf8(text@) == self.source.data().subrange(
                self.nodes@[id as int].bytes.start as int,
                self.nodes@[id as int].bytes.end as int,
            ),
            self.nodes@[id as int].leaf is Some ==> (text is Some
                <==> self.nodes@[id as int].bytes.start <= self.nodes@[id as int].bytes.end
                <= self.source.data().len() && is_char_boundary(
                self.source.data(),
                self.nodes@[id as int].bytes.start as int,
            ) && is_char_boundary(self.source.data(), self.nodes@[id as int].bytes.end as int)),
    {
        let node = &self.nodes[id];
        if node.leaf.is_none() {
            return None;
        }
        self.source.slice(node.bytes.start, node.bytes.end)
    }

    /// Source spelling selected by a node as its correspondence identity.
    pub fn identity_text(&self, id: NodeId) -> (text: Option<&str>)
        requires
            self.has_node(id as int),
        ensures
            text is Some <==> (self.nodes@[id as int].identity matches Some(span) && span.start
                <= span.end <= self.source.data().len() && is_char_boundary(
                self.source.data(),
                span.start as int,
            ) && is_char_boundary(self.source.data(), span.end as int)),
            text matches Some(text) ==> encode_utf8(text@) == self.source.data().subrange(
                self.nodes@[id as int].identity->0.start as int,
                self.nodes@[id as int].identity->0.end as int,
            ),
    {
        match self.nodes[id].identity {
            None => None,
            Some(span) => self.source.slice(span.start, span.end),
        }
    }

    /// Whether a node lies in the subtree of an ancestor, itself included.
    pub fn contains(&self, ancestor: NodeId, node: NodeId) -> (result: bool)
        requires
            self.has_node(ancestor as int),
        ensures
            result == self.in_subtree(ancestor as int, node as int),
    {
        ancestor <= node && node < self.nodes[ancestor].subtree_end
    }

    /// Independently matched review units in source preorder.
    pub open spec fn is_review_list(self, units: Seq<NodeId>, end: int) -> bool {
        &&& forall|k: int|
            0 <= k < units.len() ==> (#[trigger] units[k]) < end
                && self.nodes@[units[k] as int].review is Some
        &&& forall|k: int, l: int|
            0 <= k < l < units.len() ==> (#[trigger] units[k]) < (#[trigger] units[l])
        &&& forall|i: int|
            0 <= i < end && (#[trigger] self.nodes@[i]).review is Some ==> units.contains(
                i as usize,
            )
    }

    /// Independently matched review units in source preorder.
    pub fn review_units(&self) -> (units: Vec<NodeId>)
        ensures
            self.is_review_list(units@, self.nodes@.len() as int),
    {
        let mut units: Vec<NodeId> = Vec::new();
        let mut index: usize = 0;
        while index < self.nodes.len()
            invariant
                index <= self.nodes.len(),
                self.is_review_list(units@, index as int),
            decreases self.nodes.len() - index,
        {
            let ghost earlier = units@;
            if self.nodes[index].review.is_some() {
                units.push(index);
            }
            proof {
                assert forall|i: int|
                    0 <= i < index + 1 && (
                    #[trigger] self.nodes@[i]).review is Some implies units@.contains(
                    i as usize,
                ) by {
                    if i < index {
                        assert(earlier.contains(i as usize));
                        let k = choose|k: int| 0 <= k < earlier.len() && earlier[k] == i as usize;
                        assert(units@[k] == i as usize);
                    } else {
                        assert(units@[units@.len() - 1] == i as usize);
                    }
                }
            }
            index += 1;
        }
        units
    }

    /// The leaf at a place among all leaves.
    pub open spec fn leaf_at(self, at: int) -> SyntaxNode {
        self.nodes@[self.leaf_seq()[at] as int]
    }

    /// The leaves from the first one that ends past the start of the range, up to the next one
    /// that starts at or past its end.
    pub open spec fn is_leaf_run(self, bytes: Span, low: int, high: int) -> bool {
        let count = self.leaf_seq().len();
        &&& 0 <= low <= high <= count
        &&& low > 0 ==> self.leaf_at(low - 1).bytes.end <= bytes.start
        &&& low < count ==> self.leaf_at(low).bytes.end > bytes.start
        &&& forall|k: int| low <= k < high ==> (#[trigger] self.leaf_at(k)).bytes.start < bytes.end
        &&& high < count ==> self.leaf_at(high).bytes.start >= bytes.end
    }

    /// No leaf starts before an earlier one ends.
    pub open spec fn leaves_in_order(self) -> bool {
        &&& forall|k: int|
            0 <= k < self.leaf_seq().len() ==> (#[trigger] self.leaf_at(k)).bytes.start
                <= self.leaf_at(k).bytes.end
        &&& forall|k: int, l: int|
            0 <= k < l < self.leaf_seq().len() ==> (#[trigger] self.leaf_at(k)).bytes.end <= (
            #[trigger] self.leaf_at(l)).bytes.start
    }

    /// Where leaves stand in order, those that overlap a range form a run.
    pub proof fn law_overlapping_leaves_form_a_run(self, bytes: Span, low: int, high: int, at: int)
        requires
            self.leaves_in_order(),
            self.is_leaf_run(bytes, low, high),
            0 <= at < self.leaf_seq().len(),
        ensures
            low <= at < high <==> self.leaf_at(at).bytes.end > bytes.start && self.leaf_at(
                at,
            ).bytes.start < bytes.end,
    {
        if at < low - 1 {
            assert(self.leaf_at(at).bytes.end <= self.leaf_at(low - 1).bytes.start);
        }
        if at > low && low < self.leaf_seq().len() {
            assert(self.leaf_at(low).bytes.end <= self.leaf_at(at).bytes.start);
        }
        if at > high {
            assert(self.leaf_at(high).bytes.end <= self.leaf_at(at).bytes.start);
        }
        assert(self.leaf_at(at).bytes.start <= self.leaf_at(at).bytes.end);
        if high < self.leaf_seq().len() {
            assert(self.leaf_at(high).bytes.start <= self.leaf_at(high).bytes.end);
        }
    }

    /// Leaves that overlap a byte range, in source order.
    ///
    /// The scan starts at the first leaf that ends past the start and stops at the first
    /// later leaf that starts at or past the end.
    pub fn leaf_ids_in(&self, bytes: Span) -> (ids: Vec<NodeId>)
        requires
            self.wf(),
        ensures
            forall|k: int|
                0 <= k < ids.len() ==> self.has_node((#[trigger] ids[k]) as int)
                    && self.nodes@[ids[k] as int].leaf is Some && self.nodes@[ids[k] as int].bytes.start
                    < bytes.end,
            forall|k: int, l: int| 0 <= k < l < ids.len() ==> (#[trigger] ids[k]) < (#[trigger] ids[l]),
            exists|low: int, high: int| #[trigger]
                self.is_leaf_run(bytes, low, high) && ids@ == self.leaf_seq().subrange(low, high),
    {
        proof {
            lemma_leaf_positions(self.nodes@, self.nodes@.len() as int);
        }
        let mut low: usize = 0;
        let mut high: usize = self.leaves.len();
        while low < high
            invariant
                low <= high <= self.leaves.len(),
                self.leaf_seq() == self.leaves@,
                low > 0 ==> self.leaf_at(low - 1).bytes.end <= bytes.start,
                high < self.leaves.len() ==> self.leaf_at(high as int).bytes.end > bytes.start,
                forall|k: int|
                    0 <= k < self.leaves.len() ==> (#[trigger] self.leaves[k])
                        < self.nodes.len(),
            decreases high - low,
        {
            let middle: usize = low + (high - low) / 2;
            assert(self.leaf_at(middle as int) == self.nodes@[self.leaves[middle as int] as int]);
            if self.nodes[self.leaves[middle]].bytes.end <= bytes.start {
                low = middle + 1;
            } else {
                high = middle;
            }
        }
        let mut ids: Vec<NodeId> = Vec::new();
        let mut open: bool = true;
        let ghost first = low as int;
        while open && low < self.leaves.len()
            invariant
                low <= self.leaves.len(),
                self.leaf_seq() == self.leaves@,
                0 <= first <= low,
                first > 0 ==> self.leaf_at(first - 1).bytes.end <= bytes.start,
                first < self.leaves.len() ==> self.leaf_at(first).bytes.end > bytes.start,
                forall|k: int|
                    first <= k < low ==> (#[trigger] self.leaf_at(k)).bytes.start < bytes.end,
                !open ==> low < self.leaves.len() && self.leaf_at(low as int).bytes.start
                    >= bytes.end,
                ids@ == self.leaves@.subrange(first, low as int),
                forall|k: int|
                    0 <= k < self.leaves.len() ==> (#[trigger] self.leaves[k])
                        < self.nodes.len() && self.nodes@[self.leaves[k] as int].leaf is Some,
                forall|k: int, l: int|
                    0 <= k < l < self.leaves.len() ==> (#[trigger] self.leaves[k]) < (
                    #[trigger] self.leaves[l]),
                forall|k: int|
                    0 <= k < ids.len() ==> self.has_node((#[trigger] ids[k]) as int)
                        && self.nodes@[ids[k] as int].leaf is Some
                        && self.nodes@[ids[k] as int].bytes.start < bytes.end,
                forall|k: int, l: int|
                    0 <= k < l < ids.len() ==> (#[trigger] ids[k]) < (#[trigger] ids[l]),
                forall|k: int|
                    0 <= k < ids.len() && low < self.leaves.len() ==> (#[trigger] ids[k])
                        < self.leaves[low as int],
            decreases
                self.leaves.len() - low,
                if open {
                    1int
                } else {
                    0int
                },
        {
            let id = self.leaves[low];
            assert(self.leaf_at(low as int) == self.nodes@[id as int]);
            if self.nodes[id].bytes.start < bytes.end {
                ids.push(id);
                low += 1;
                assert(ids@ =~= self.leaves@.subrange(first, low as int));
            } else {
                open = false;
            }
        }
        assert(self.is_leaf_run(bytes, first, low as int));
        ids
    }

    /// Composites below a root, in preorder.
    pub open spec fn is_composite_list(self, ids: Seq<NodeId>, start: int, end: int) -> bool {
        &&& forall|k: int|
            0 <= k < ids.len() ==> start <= (#[trigger] ids[k]) < end
                && self.nodes@[ids[k] as int].is_composite()
        &&& forall|k: int, l: int|
            0 <= k < l < ids.len() ==> (#[trigger] ids[k]) < (#[trigger] ids[l])
        &&& forall|i: int|
            start <= i < end && (#[trigger] self.nodes@[i]).is_composite() ==> ids.contains(
                i as usize,
            )
    }

    /// Named structures strictly below a root, in preorder.
    pub fn descendant_composites(&self, root: NodeId) -> (ids: Vec<NodeId>)
        requires
            self.wf(),
            self.has_node(root as int),
        ensures
            self.is_composite_list(ids@, root + 1, self.nodes@[root as int].subtree_end as int),
    {
        let mut ids: Vec<NodeId> = Vec::new();
        assert(node_fits(
            self.nodes@[root as int],
            root as int,
            self.nodes@.len() as int,
            self.source.data().len() as int,
        ));
        let end = self.nodes[root].subtree_end;
        let mut index: usize = root + 1;
        while index < end
            invariant
                root < index <= end <= self.nodes.len(),
                self.is_composite_list(ids@, root + 1, index as int),
            decreases end - index,
        {
            let ghost earlier = ids@;
            if self.nodes[index].composite() {
                ids.push(index);
            }
            proof {
                assert forall|i: int|
                    root + 1 <= i < index + 1 && (
                    #[trigger] self.nodes@[i]).is_composite() implies ids@.contains(
                    i as usize,
                ) by {
                    if i < index {
                        assert(earlier.contains(i as usize));
                        let k = choose|k: int| 0 <= k < earlier.len() && earlier[k] == i as usize;
                        assert(ids@[k] == i as usize);
                    } else {
                        assert(ids@[ids@.len() - 1] == i as usize);
                    }
                }
            }
            index += 1;
        }
        ids
    }

    /// Content leaves in a range of the arena, in preorder.
    pub open spec fn is_content_list(self, ids: Seq<NodeId>, start: int, end: int) -> bool {
        &&& forall|k: int|
            0 <= k < ids.len() ==> start <= (#[trigger] ids[k]) < end
                && self.nodes@[ids[k] as int].is_content_leaf()
        &&& forall|k: int, l: int|
            0 <= k < l < ids.len() ==> (#[trigger] ids[k]) < (#[trigger] ids[l])
        &&& forall|i: int|
            start <= i < end && (#[trigger] self.nodes@[i]).is_content_leaf() ==> ids.contains(
                i as usize,
            )
    }

    /// Content leaves of a subtree in preorder; a leaf is its own only content.
    pub fn descendant_leaves(&self, root: NodeId) -> (ids: Vec<NodeId>)
        requires
            self.wf(),
            self.has_node(root as int),
        ensures
            self.is_content_list(ids@, root as int, self.nodes@[root as int].subtree_end as int),
    {
        let mut ids: Vec<NodeId> = Vec::new();
        assert(node_fits(
            self.nodes@[root as int],
            root as int,
            self.nodes@.len() as int,
            self.source.data().len() as int,
        ));
        let end = self.nodes[root].subtree_end;
        let mut index: usize = root;
        while index < end
            invariant
                root <= index <= end <= self.nodes.len(),
                self.is_content_list(ids@, root as int, index as int),
            decreases end - index,
        {
            let ghost earlier = ids@;
            if self.nodes[index].content_leaf() {
                ids.push(index);
            }
            proof {
                assert forall|i: int|
                    root <= i < index + 1 && (
                    #[trigger] self.nodes@[i]).is_content_leaf() implies ids@.contains(
                    i as usize,
                ) by {
                    if i < index {
                        assert(earlier.contains(i as usize));
                        let k = choose|k: int| 0 <= k < earlier.len() && earlier[k] == i as usize;
                        assert(ids@[k] == i as usize);
                    } else {
                        assert(ids@[ids@.len() - 1] == i as usize);
                    }
                }
            }
            index += 1;
        }
        ids
    }

    /// Last of the children before a node that is neither a delimiter nor layout.
    pub open spec fn last_item(self, children: Seq<NodeId>, id: int) -> Option<NodeId>
        decreases children.len(),
    {
        if children.len() == 0 {
            None
        } else if children.last() < id && !self.nodes@[children.last() as int].is_separator() {
            Some(children.last())
        } else {
            self.last_item(children.drop_last(), id)
        }
    }

    /// The item that a separator trails.
    pub open spec fn trailed_item(self, id: int) -> Option<NodeId> {
        match self.nodes@[id].parent {
            Some(parent) => if self.nodes@[id].trails_sibling() {
                self.last_item(self.nodes@[parent as int].children@, id)
            } else {
                None
            },
            None => None,
        }
    }

    /// Children at or behind the node are no items before it.
    proof fn lemma_last_item(self, children: Seq<NodeId>, id: int, index: int)
        requires
            0 <= index <= children.len(),
            forall|k: int| index <= k < children.len() ==> id <= #[trigger] children[k],
        ensures
            self.last_item(children, id) == self.last_item(children.take(index), id),
        decreases children.len(),
    {
        if index < children.len() {
            let fewer = children.drop_last();
            assert(children.last() == children[children.len() - 1]);
            assert(fewer.take(index) =~= children.take(index));
            assert forall|k: int| index <= k < fewer.len() implies id <= #[trigger] fewer[k] by {
                assert(fewer[k] == children[k]);
            }
            self.lemma_last_item(fewer, id, index);
        } else {
            assert(children.take(index) =~= children);
        }
    }

    /// Syntax that a separator trails: the closest preceding sibling that is neither a delimiter
    /// nor layout. Brackets belong to the node that they enclose.
    pub fn delimiter_owner(&self, id: NodeId) -> (owner: Option<NodeId>)
        requires
            self.wf(),
            self.has_node(id as int),
        ensures
            owner matches Some(owner) ==> owner < id && self.nodes@[owner as int].parent
                == self.nodes@[id as int].parent,
            !self.nodes@[id as int].trails_sibling() ==> owner is None,
            owner matches Some(owner) ==> !self.nodes@[owner as int].is_separator(),
            self.nodes@[id as int].trails_sibling() ==> (self.nodes@[id as int].parent matches Some(
                parent,
            ) ==> forall|k: int|
                0 <= k < self.nodes@[parent as int].children.len() && (
                #[trigger] self.nodes@[parent as int].children[k]) < id && (owner is None
                    || owner->0 < self.nodes@[parent as int].children[k])
                    ==> self.nodes@[self.nodes@[parent as int].children[k] as int].is_separator()),
            owner == self.trailed_item(id as int),
    {
        match self.nodes[id].leaf {
            None => {
                return None;
            },
            Some(leaf) => {
                let kind = self.nodes[id].kind;
                if !leaf.delimiter || !(same_str(kind, ",") || same_str(kind, ";")) {
                    return None;
                }
            },
        }
        assert(parent_holds(self.nodes@, id as int));
        let parent = match self.nodes[id].parent {
            None => {
                return None;
            },
            Some(parent) => parent,
        };
        assert(children_hold(self.nodes@, parent as int));
        let mut found: Option<NodeId> = None;
        let mut index: usize = 0;
        while index < self.nodes[parent].children.len()
            invariant
                self.wf(),
                self.has_node(id as int),
                self.has_node(parent as int),
                self.nodes@[id as int].parent == Some(parent),
                children_hold(self.nodes@, parent as int),
                index <= self.nodes@[parent as int].children.len(),
                self.nodes@[id as int].trails_sibling(),
                found == self.last_item(
                    self.nodes@[parent as int].children@.take(index as int),
                    id as int,
                ),
                found matches Some(owner) ==> owner < id && self.nodes@[owner as int].parent
                    == Some(parent) && !self.nodes@[owner as int].is_separator(),
                forall|k: int|
                    0 <= k < index ==> (#[trigger] self.nodes@[parent as int].children[k]) < id,
                forall|k: int|
                    0 <= k < index && (found is None || found->0 < (
                    #[trigger] self.nodes@[parent as int].children[k]))
                        ==> self.nodes@[self.nodes@[parent as int].children[k] as int].is_separator(),
            decreases self.nodes@[parent as int].children.len() - index,
        {
            let child = self.nodes[parent].children[index];
            assert(child < self.nodes@[parent as int].subtree_end);
            assert(node_fits(
                self.nodes@[parent as int],
                parent as int,
                self.nodes@.len() as int,
                self.source.data().len() as int,
            ));
            if child >= id {
                proof {
                    assert forall|k: int|
                        0 <= k < self.nodes@[parent as int].children.len() && (
                        #[trigger] self.nodes@[parent as int].children[k]) < id implies k
                        < index by {
                        if index < k {
                            assert(self.nodes@[parent as int].children[index as int]
                                < self.nodes@[parent as int].children[k]);
                        }
                    }
                    let children = self.nodes@[parent as int].children@;
                    assert forall|k: int| index <= k < children.len() implies id
                        <= #[trigger] children[k] by {
                        if k > index {
                            assert(children[index as int] < children[k]);
                        }
                    }
                    self.lemma_last_item(children, id as int, index as int);
                }
                return found;
            }
            let node = &self.nodes[child];
            let skipped = match node.leaf {
                Some(leaf) => leaf.delimiter || leaf.channel == ContentChannel::Layout,
                None => false,
            };
            proof {
                let children = self.nodes@[parent as int].children@;
                let longer = children.take(index + 1);
                assert(longer.last() == child);
                assert(longer.drop_last() =~= children.take(index as int));
            }
            if !skipped {
                found = Some(child);
            }
            proof {
                assert forall|k: int|
                    0 <= k < index implies (#[trigger] self.nodes@[parent as int].children[k])
                    < child by {
                    assert(self.nodes@[parent as int].children[k]
                        < self.nodes@[parent as int].children[index as int]);
                }
            }
            index += 1;
        }
        assert(self.nodes@[parent as int].children@.take(index as int)
            =~= self.nodes@[parent as int].children@);
        found
    }
}

/// Whether an arena is a consistent preorder.
fn check_arena(nodes: &Vec<SyntaxNode>, byte_len: usize) -> (valid: bool)
    ensures
        valid == arena_wf(nodes@, byte_len as int),
{
    let count = nodes.len();
    if count == 0 || count == usize::MAX || nodes[0].subtree_end != count {
        return false;
    }
    let mut index: usize = 0;
    while index < count
        invariant
            count == nodes.len(),
            0 < count < usize::MAX,
            nodes@[0].subtree_end == count,
            index <= count,
            forall|i: int|
                0 <= i < index ==> node_fits(
                    #[trigger] nodes@[i],
                    i,
                    count as int,
                    byte_len as int,
                ),
            forall|i: int| 0 <= i < index ==> #[trigger] parent_holds(nodes@, i),
            forall|i: int| 0 <= i < index ==> #[trigger] children_hold(nodes@, i),
        decreases count - index,
    {
        if !check_node(&nodes[index], index, count, byte_len) {
            return false;
        }
        let holds = match nodes[index].parent {
            Some(parent) => parent < index && nodes[index].subtree_end <= nodes[parent].subtree_end,
            None => index == 0,
        };
        if !holds {
            assert(!parent_holds(nodes@, index as int));
            return false;
        }
        if !check_children(nodes, index) {
            return false;
        }
        index += 1;
    }
    true
}

fn check_node(node: &SyntaxNode, index: usize, count: usize, byte_len: usize) -> (valid: bool)
    ensures
        valid == node_fits(*node, index as int, count as int, byte_len as int),
{
    if index >= node.subtree_end || node.subtree_end > count {
        return false;
    }
    if node.bytes.start > node.bytes.end || node.bytes.end > byte_len {
        return false;
    }
    if node.lines.start < 1 || node.lines.start > node.lines.end {
        return false;
    }
    if let Some(span) = node.identity {
        if span.start > span.end || span.end > byte_len {
            return false;
        }
    }
    if let Some(owner) = node.decoration_owner {
        if owner >= count {
            return false;
        }
    }
    !(node.leaf.is_some() && node.children.len() != 0)
}

fn check_children(nodes: &Vec<SyntaxNode>, index: usize) -> (valid: bool)
    requires
        index < nodes.len(),
        nodes@[index as int].subtree_end <= nodes.len(),
    ensures
        valid == children_hold(nodes@, index as int),
{
    let node = &nodes[index];
    let mut position: usize = 0;
    let mut floor: usize = index;
    while position < node.children.len()
        invariant
            index < nodes.len(),
            *node == nodes@[index as int],
            node.subtree_end <= nodes.len(),
            position <= node.children.len(),
            floor == if position == 0 {
                index
            } else {
                node.children[position - 1]
            },
            forall|k: int|
                0 <= k < position ==> index < (#[trigger] node.children[k]) < node.subtree_end
                    && nodes@[node.children[k] as int].parent == Some(index) && node.children[k]
                    <= floor,
            forall|k: int, l: int|
                0 <= k < l < position ==> (#[trigger] node.children[k]) < (
                #[trigger] node.children[l]),
        decreases node.children.len() - position,
    {
        let child = node.children[position];
        if child <= floor || child >= node.subtree_end {
            proof {
                if position > 0 {
                    assert(node.children[position - 1] == floor);
                }
            }
            return false;
        }
        if nodes[child].parent != Some(index) {
            return false;
        }
        floor = child;
        position += 1;
    }
    true
}

/// Before and after trees selected as one atomic frontend decision.
#[derive(Clone, Debug, PartialEq, Eq)]
pub struct SyntaxPair {
    pub before: SyntaxTree,
    pub after: SyntaxTree,
}

impl SyntaxPair {
    /// Both trees are consistent and use the same parser.
    pub open spec fn wf(self) -> bool {
        self.before.wf() && self.after.wf() && self.before.language == self.after.language
    }
}

} // verus!

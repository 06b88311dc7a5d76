//! The universal fallback: one exact leaf per physical line.

use crate::source::{is_line_of, lines_cover, Source, SourceLine};
use crate::span::Span;
use crate::syntax::{
    arena_wf, children_hold, node_fits, parent_holds, ContentChannel, CorrespondenceRole,
    FallbackReason, Language, LayoutOwnership, Leaf, LeafRole, NodeId, ProjectionHealth, ReviewMode,
    ReviewUnit, SyntaxClass, SyntaxNode, SyntaxTree,
};
use vstd::prelude::*;

verus! {

/// The leaf of one physical line: its exact bytes, matched as opaque text.
pub open spec fn is_line_leaf(node: SyntaxNode, line: SourceLine, id: int) -> bool {
    &&& node.kind@ == "line"@
    &&& node.slot is None
    &&& node.bytes == line.full_bytes
    &&& node.lines.start == line.number
    &&& node.lines.end == line.number + 1
    &&& node.parent == Some(0usize)
    &&& node.children@.len() == 0
    &&& node.subtree_end == id + 1
    &&& node.leaf == Some(
        Leaf {
            syntax: SyntaxClass::Plain,
            channel: ContentChannel::Opaque,
            delimiter: false,
            role: LeafRole::Payload,
        },
    )
    &&& node.identity == Some(line.full_bytes)
    &&& node.decoration_owner is None
    &&& node.review == Some(
        ReviewUnit { mode: ReviewMode::Linewise, layout: LayoutOwnership::Nothing },
    )
    &&& node.correspondence == CorrespondenceRole::Transparent
    &&& node.named && !node.extra && !node.missing
}

/// A file root that owns one exact leaf per physical line.
pub open spec fn is_line_tree(tree: SyntaxTree) -> bool {
    let lines = tree.source.line_seq();
    &&& tree.language == Language::Lines
    &&& tree.nodes@.len() == lines.len() + 1
    &&& tree.nodes@[0].children@.len() == lines.len()
    &&& tree.nodes@[0].review is None
    &&& forall|i: int| 0 <= i < lines.len() ==> (#[trigger] tree.nodes@[0].children@[i]) == i + 1
    &&& forall|i: int|
        1 <= i < tree.nodes@.len() ==> is_line_leaf(#[trigger] tree.nodes@[i], lines[i - 1], i)
}

/// Degenerate tree whose file root owns one exact leaf per physical source line.
pub fn project(source: Source, reason: FallbackReason) -> (tree: SyntaxTree)
    requires
        source.wf(),
    ensures
        tree.wf(),
        tree.source == source,
        tree.health == ProjectionHealth::Fallback(reason),
        is_line_tree(tree),
{
    let count = source.line_count();
    let byte_len = source.byte_len();
    proof {
        lemma_line_bound(source.data(), source.line_seq());
    }
    let mut children: Vec<NodeId> = Vec::new();
    let mut index: usize = 0;
    while index < count
        invariant
            index <= count,
            count + 1 < usize::MAX,
            children@.len() == index,
            forall|i: int| 0 <= i < index ==> (#[trigger] children@[i]) == i + 1,
        decreases count - index,
    {
        children.push(index + 1);
        index += 1;
    }
    let mut nodes: Vec<SyntaxNode> = Vec::new();
    let lines = match source.line_coverage(0, byte_len) {
        Some(lines) => lines,
        None => Span { start: 1, end: 1 },
    };
    nodes.push(
        SyntaxNode {
            kind: "file",
            slot: None,
            bytes: Span { start: 0, end: byte_len },
            lines,
            parent: None,
            children,
            subtree_end: count + 1,
            leaf: None,
            identity: None,
            decoration_owner: None,
            review: None,
            correspondence: CorrespondenceRole::HardOwner,
            named: true,
            extra: false,
            missing: false,
        },
    );
    let ghost root = nodes@[0];
    let mut index: usize = 0;
    while index < count
        invariant
            source.wf(),
            count == source.line_seq().len(),
            count + 1 < usize::MAX,
            index <= count,
            nodes@.len() == index + 1,
            nodes@[0] == root,
            forall|i: int|
                1 <= i < nodes@.len() ==> is_line_leaf(
                    #[trigger] nodes@[i],
                    source.line_seq()[i - 1],
                    i,
                ),
        decreases count - index,
    {
        let line = source.lines()[index];
        assert(is_line_of(source.data(), source.line_seq()[index as int]));
        nodes.push(
            SyntaxNode {
                kind: "line",
                slot: None,
                bytes: line.full_bytes,
                lines: Span { start: line.number, end: line.number + 1 },
                parent: Some(0),
                children: Vec::new(),
                subtree_end: index + 2,
                leaf: Some(
                    Leaf {
                        syntax: SyntaxClass::Plain,
                        channel: ContentChannel::Opaque,
                        delimiter: false,
                        role: LeafRole::Payload,
                    },
                ),
                identity: Some(line.full_bytes),
                decoration_owner: None,
                review: Some(
                    ReviewUnit { mode: ReviewMode::Linewise, layout: LayoutOwnership::Nothing },
                ),
                correspondence: CorrespondenceRole::Transparent,
                named: true,
                extra: false,
                missing: false,
            },
        );
        index += 1;
    }
    let ghost seq = nodes@;
    proof {
        let total = seq.len() as int;
        assert forall|i: int| 0 <= i < total implies node_fits(
            #[trigger] seq[i],
            i,
            total,
            byte_len as int,
        ) by {
            if i > 0 {
                assert(is_line_leaf(seq[i], source.line_seq()[i - 1], i));
                assert(is_line_of(source.data(), source.line_seq()[i - 1]));
            }
        }
        assert forall|i: int| 0 <= i < total implies #[trigger] parent_holds(seq, i) by {
            if i > 0 {
                assert(is_line_leaf(seq[i], source.line_seq()[i - 1], i));
            }
        }
        assert forall|i: int| 0 <= i < total implies #[trigger] children_hold(seq, i) by {
            if i > 0 {
                assert(is_line_leaf(seq[i], source.line_seq()[i - 1], i));
            } else {
                assert forall|k: int| 0 <= k < seq[0].children.len() implies 0 < (
                #[trigger] seq[0].children[k]) < seq[0].subtree_end
                    && seq[seq[0].children[k] as int].parent == Some(0usize) by {
                    assert(seq[0].children@[k] == k + 1);
                    assert(is_line_leaf(seq[k + 1], source.line_seq()[k], k + 1));
                }
            }
        }
        assert(arena_wf(seq, byte_len as int));
    }
    let tree = SyntaxTree::from_nodes(
        source,
        Language::Lines,
        ProjectionHealth::Fallback(reason),
        nodes,
    );
    tree.unwrap()
}

proof fn lemma_line_bound(data: Seq<u8>, lines: Seq<SourceLine>)
    requires
        lines_cover(data, lines, data.len() as int),
    ensures
        lines.len() <= data.len(),
{
    if lines.len() > 0 {
        lemma_line_bound_at(data, lines, lines.len() - 1);
    }
}

proof fn lemma_line_bound_at(data: Seq<u8>, lines: Seq<SourceLine>, index: int)
    requires
        lines_cover(data, lines, data.len() as int),
        0 <= index < lines.len(),
    ensures
        index + 1 <= lines[index].full_bytes.end <= data.len(),
    decreases index,
{
    assert(is_line_of(data, lines[index]));
    if index > 0 {
        lemma_line_bound_at(data, lines, index - 1);
        assert(lines[index].full_bytes.start == lines[index - 1].full_bytes.end);
    }
}

} // verus!

//! Line edits of one matched unit.

use crate::correspondence::geometry::{row_span, zero_based_lines};
use crate::correspondence::links::{LeafLink, LeafRelation, MatchedUnit, NodeLink, Placement};
use crate::correspondence::scopes::{ascending, insert_ascending};
use crate::plan::excerpts::holds;
use crate::plan::rows::LineEdit;
use crate::plan::scene::{node_is_line_isolated, physical_lines_equal, PlanScene};
use crate::plan::sorting::{key_less, sorted_by_keys, SortKey};
use crate::span::Span;
use crate::syntax::{ContentChannel, NodeId, SyntaxNode, SyntaxTree};
use crate::text::same_bytes;
use vstd::prelude::*;

verus! {

/// Every edit names existing lines.
pub open spec fn edits_fit(scene: PlanScene<'_>, edits: Seq<LineEdit>) -> bool {
    forall|k: int|
        0 <= k < edits.len() ==> (#[trigger] edits[k]).fits(
            scene.before_count(),
            scene.after_count(),
        )
}

/// Edits come in the order of the lines at which they stand.
pub open spec fn edits_ascend(edits: Seq<LineEdit>) -> bool {
    forall|i: int, j: int|
        0 <= i < j < edits.len() ==> (#[trigger] edits[i]).place() <= (#[trigger] edits[j]).place()
}

/// Every edit of one list is in the other.
pub open spec fn all_listed(some: Seq<LineEdit>, all: Seq<LineEdit>) -> bool {
    forall|edit: LineEdit| some.contains(edit) ==> #[trigger] all.contains(edit)
}

/// Rows paired in order; the longer side goes on alone.
pub open spec fn zipped(before: Span, after: Span) -> Seq<LineEdit> {
    let old_count = span_len(before);
    let new_count = span_len(after);
    Seq::new(
        (if old_count >= new_count {
            old_count
        } else {
            new_count
        }) as nat,
        |k: int|
            LineEdit {
                before: if k < old_count {
                    Some((before.start + k + 1) as usize)
                } else {
                    None
                },
                after: if k < new_count {
                    Some((after.start + k + 1) as usize)
                } else {
                    None
                },
            },
    )
}

/// Number of positions in a span.
pub open spec fn span_len(span: Span) -> int {
    if span.start <= span.end {
        span.end - span.start
    } else {
        0
    }
}

/// Append one edit per row pair.
fn append_changed_line_edits(scene: &PlanScene<'_>, edits: &mut Vec<LineEdit>, before: Span, after: Span)
    requires
        scene.wf(),
        edits_fit(*scene, old(edits)@),
        before.start <= before.end <= scene.before_count(),
        after.start <= after.end <= scene.after_count(),
    ensures
        edits_fit(*scene, final(edits)@),
        final(edits)@ == old(edits)@ + zipped(before, after),
{
    proof {
        scene.pair.before.source.lemma_line_count();
        scene.pair.after.source.lemma_line_count();
    }
    let count = if before.len() >= after.len() {
        before.len()
    } else {
        after.len()
    };
    let mut offset: usize = 0;
    assert(edits@ =~= edits@ + zipped(before, after).take(0));
    while offset < count
        invariant
            scene.before_count() < usize::MAX,
            scene.after_count() < usize::MAX,
            before.start <= before.end <= scene.before_count(),
            after.start <= after.end <= scene.after_count(),
            count == zipped(before, after).len(),
            offset <= count,
            edits_fit(*scene, edits@),
            edits@ == old(edits)@ + zipped(before, after).take(offset as int),
        decreases count - offset,
    {
        let edit = LineEdit {
            before: if offset < before.len() {
                Some(before.start + offset + 1)
            } else {
                None
            },
            after: if offset < after.len() {
                Some(after.start + offset + 1)
            } else {
                None
            },
        };
        edits.push(edit);
        proof {
            assert(zipped(before, after)[offset as int] == edit);
            assert(zipped(before, after).take(offset + 1) =~= zipped(before, after).take(
                offset as int,
            ).push(edit));
            assert(edits@ =~= old(edits)@ + zipped(before, after).take(offset + 1));
        }
        offset += 1;
    }
    assert(zipped(before, after).take(offset as int) =~= zipped(before, after));
}

/// Sort edits by their line and drop repeated ones.
pub fn deduplicate_line_edits(edits: Vec<LineEdit>) -> (result: Vec<LineEdit>)
    ensures
        edits_ascend(result@),
        forall|edit: LineEdit| #[trigger] result@.contains(edit) <==> edits@.contains(edit),
{
    let ghost listed = edits@;
    let mut keys: Vec<SortKey> = Vec::new();
    let mut index: usize = 0;
    while index < edits.len()
        invariant
            index <= edits@.len(),
            keys@.len() == index,
            forall|k: int| 0 <= k < index ==> (#[trigger] keys@[k]) == edit_key(edits@[k]),
        decreases edits@.len() - index,
    {
        keys.push(SortKey::new(edits[index].order(), 0, 0, 0));
        index += 1;
    }
    let ghost key = |edit: LineEdit| edit_key(edit);
    let sorted = sorted_by_keys(edits, keys, Ghost(key));
    proof {
        assert forall|i: int, j: int| 0 <= i < j < sorted@.len() implies (
        #[trigger] sorted@[i]).place() <= (#[trigger] sorted@[j]).place() by {
            assert(!key_less(key(sorted@[j]), key(sorted@[i])));
        }
    }
    let mut result: Vec<LineEdit> = Vec::new();
    let mut at: usize = 0;
    while at < sorted.len()
        invariant
            at <= sorted@.len(),
            edits_ascend(sorted@),
            edits_ascend(result@),
            forall|k: int| 0 <= k < result@.len() && at < sorted@.len() ==> (
            #[trigger] result@[k]).place() <= sorted@[at as int].place(),
            forall|edit: LineEdit| #[trigger]
                result@.contains(edit) <==> sorted@.take(at as int).contains(edit),
        decreases sorted@.len() - at,
    {
        let edit = sorted[at];
        let ghost earlier = result@;
        let ghost shorter = sorted@.take(at as int);
        let ghost longer = sorted@.take(at + 1);
        let repeated = result.len() > 0 && result[result.len() - 1] == edit;
        if !repeated {
            result.push(edit);
        }
        proof {
            assert(longer =~= shorter.push(edit));
            assert forall|other: LineEdit| #[trigger]
                result@.contains(other) <==> longer.contains(other) by {
                if longer.contains(other) {
                    let k = choose|k: int| 0 <= k < longer.len() && longer[k] == other;
                    if k < at {
                        assert(shorter[k] == other);
                        assert(earlier.contains(other));
                        let i = choose|i: int| 0 <= i < earlier.len() && earlier[i] == other;
                        assert(result@[i] == other);
                    } else if repeated {
                        assert(result@[result@.len() - 1] == other);
                    } else {
                        assert(result@[earlier.len() as int] == other);
                    }
                }
                if result@.contains(other) {
                    let k = choose|k: int| 0 <= k < result@.len() && result@[k] == other;
                    if k < earlier.len() {
                        assert(earlier[k] == other);
                        assert(earlier.contains(other));
                        assert(shorter.contains(other));
                        let i = choose|i: int| 0 <= i < shorter.len() && shorter[i] == other;
                        assert(longer[i] == other);
                    } else {
                        assert(longer[at as int] == other);
                    }
                }
            }
            assert forall|k: int| 0 <= k < result@.len() && at + 1 < sorted@.len() implies (
            #[trigger] result@[k]).place() <= sorted@[at + 1].place() by {
                assert(sorted@[at as int].place() <= sorted@[at + 1].place());
            }
        }
        at += 1;
    }
    proof {
        assert(sorted@.take(at as int) =~= sorted@);
        assert forall|edit: LineEdit| #[trigger] result@.contains(edit) <==> listed.contains(
            edit,
        ) by {
            assert(sorted@.contains(edit) <==> listed.contains(edit));
        }
    }
    result
}

/// Key by which edits are sorted.
pub open spec fn edit_key(edit: LineEdit) -> SortKey {
    SortKey { first: edit.place(), second: 0, third: 0, fourth: 0 }
}

/// Edits with the same members fit together.
proof fn lemma_same_members_fit(scene: PlanScene<'_>, edits: Seq<LineEdit>, other: Seq<LineEdit>)
    requires
        edits_fit(scene, edits),
        forall|edit: LineEdit| #[trigger] other.contains(edit) ==> edits.contains(edit),
    ensures
        edits_fit(scene, other),
{
    assert forall|k: int| 0 <= k < other.len() implies (#[trigger] other[k]).fits(
        scene.before_count(),
        scene.after_count(),
    ) by {
        assert(other.contains(other[k]));
        let i = choose|i: int| 0 <= i < edits.len() && edits[i] == other[k];
        assert(edits[i].fits(scene.before_count(), scene.after_count()));
    }
}

/// Two edits claim the same line of one revision.
pub open spec fn claims_clash(left: LineEdit, right: LineEdit) -> bool {
    ||| left.before is Some && left.before == right.before
    ||| left.after is Some && left.after == right.after
}

/// Two edits of the list claim the same line of one revision.
pub open spec fn edits_compete(edits: Seq<LineEdit>) -> bool {
    exists|i: int, j: int|
        0 <= i < j < edits.len() && claims_clash(#[trigger] edits[i], #[trigger] edits[j])
}

/// Whole-line rendering cannot represent two semantic facts that claim the same source row.
pub fn line_edits_compete_for_source_rows(edits: &Vec<LineEdit>) -> (result: bool)
    ensures
        result == edits_compete(edits@),
{
    let mut before: Vec<usize> = Vec::new();
    let mut after: Vec<usize> = Vec::new();
    let mut index: usize = 0;
    while index < edits.len()
        invariant
            index <= edits@.len(),
            ascending(before@),
            ascending(after@),
            forall|line: usize| #[trigger]
                before@.contains(line) <==> claims_before(edits@.take(index as int), line),
            forall|line: usize| #[trigger]
                after@.contains(line) <==> claims_after(edits@.take(index as int), line),
            forall|i: int, j: int|
                0 <= i < j < index ==> !claims_clash(#[trigger] edits@[i], #[trigger] edits@[j]),
        decreases edits@.len() - index,
    {
        let edit = edits[index];
        let ghost shorter = edits@.take(index as int);
        let ghost longer = edits@.take(index + 1);
        assert(longer =~= shorter.push(edit));
        if let Some(line) = edit.before {
            if holds(&before, line) {
                proof {
                    let i = choose|i: int|
                        0 <= i < shorter.len() && (#[trigger] shorter[i]).before == Some(line);
                    assert(claims_clash(edits@[i], edits@[index as int]));
                }
                return true;
            }
            insert_ascending(&mut before, line);
        }
        if let Some(line) = edit.after {
            if holds(&after, line) {
                proof {
                    let i = choose|i: int|
                        0 <= i < shorter.len() && (#[trigger] shorter[i]).after == Some(line);
                    assert(claims_clash(edits@[i], edits@[index as int]));
                }
                return true;
            }
            insert_ascending(&mut after, line);
        }
        proof {
            assert forall|line: usize| claims_before(longer, line) <==> claims_before(
                shorter,
                line,
            ) || edit.before == Some(line) by {
                if claims_before(longer, line) {
                    let k = choose|k: int|
                        0 <= k < longer.len() && (#[trigger] longer[k]).before == Some(line);
                    if k < index {
                        assert(shorter[k].before == Some(line));
                    }
                }
                if claims_before(shorter, line) {
                    let k = choose|k: int|
                        0 <= k < shorter.len() && (#[trigger] shorter[k]).before == Some(line);
                    assert(longer[k].before == Some(line));
                }
                assert(longer[index as int] == edit);
            }
            assert forall|line: usize| claims_after(longer, line) <==> claims_after(shorter, line)
                || edit.after == Some(line) by {
                if claims_after(longer, line) {
                    let k = choose|k: int|
                        0 <= k < longer.len() && (#[trigger] longer[k]).after == Some(line);
                    if k < index {
                        assert(shorter[k].after == Some(line));
                    }
                }
                if claims_after(shorter, line) {
                    let k = choose|k: int|
                        0 <= k < shorter.len() && (#[trigger] shorter[k]).after == Some(line);
                    assert(longer[k].after == Some(line));
                }
                assert(longer[index as int] == edit);
            }
            assert forall|i: int, j: int| 0 <= i < j < index + 1 implies !claims_clash(
                #[trigger] edits@[i],
                #[trigger] edits@[j],
            ) by {
                if j == index {
                    assert(shorter[i] == edits@[i]);
                    if claims_clash(edits@[i], edit) {
                        if edit.before is Some && edits@[i].before == edit.before {
                            assert(claims_before(shorter, edit.before->0));
                        } else {
                            assert(claims_after(shorter, edit.after->0));
                        }
                    }
                }
            }
        }
        index += 1;
    }
    false
}

/// Some edit claims the old line.
pub open spec fn claims_before(edits: Seq<LineEdit>, line: usize) -> bool {
    exists|k: int| 0 <= k < edits.len() && (#[trigger] edits[k]).before == Some(line)
}

/// Some edit claims the current line.
pub open spec fn claims_after(edits: Seq<LineEdit>, line: usize) -> bool {
    exists|k: int| 0 <= k < edits.len() && (#[trigger] edits[k]).after == Some(line)
}

/// Current lines that edits claim.
pub fn claimed_lines(edits: &Vec<LineEdit>) -> (lines: Vec<usize>)
    ensures
        ascending(lines@),
        forall|line: usize| #[trigger] lines@.contains(line) <==> claims_after(edits@, line),
{
    let mut lines: Vec<usize> = Vec::new();
    let mut index: usize = 0;
    while index < edits.len()
        invariant
            index <= edits@.len(),
            ascending(lines@),
            forall|line: usize| #[trigger]
                lines@.contains(line) <==> claims_after(edits@.take(index as int), line),
        decreases edits@.len() - index,
    {
        let edit = edits[index];
        let ghost shorter = edits@.take(index as int);
        let ghost longer = edits@.take(index + 1);
        if let Some(line) = edit.after {
            insert_ascending(&mut lines, line);
        }
        proof {
            assert(longer =~= shorter.push(edit));
            assert forall|line: usize| claims_after(longer, line) <==> claims_after(shorter, line)
                || edit.after == Some(line) by {
                if claims_after(longer, line) {
                    let k = choose|k: int|
                        0 <= k < longer.len() && (#[trigger] longer[k]).after == Some(line);
                    if k < index {
                        assert(shorter[k].after == Some(line));
                    }
                }
                if claims_after(shorter, line) {
                    let k = choose|k: int|
                        0 <= k < shorter.len() && (#[trigger] shorter[k]).after == Some(line);
                    assert(longer[k].after == Some(line));
                }
                assert(longer[index as int] == edit);
            }
        }
        index += 1;
    }
    assert(edits@.take(index as int) =~= edits@);
    lines
}

/// The leaf is a comment.
pub open spec fn is_comment(node: SyntaxNode) -> bool {
    node.leaf matches Some(leaf) && leaf.channel == ContentChannel::Comment
}

/// The leaf carries payload: neither comment nor layout.
pub open spec fn is_significant(node: SyntaxNode) -> bool {
    node.leaf matches Some(leaf) && leaf.channel != ContentChannel::Comment && leaf.channel
        != ContentChannel::Layout
}

fn comment_leaf(node: &SyntaxNode) -> (result: bool)
    ensures
        result == is_comment(*node),
{
    match node.leaf {
        Some(leaf) => matches!(leaf.channel, ContentChannel::Comment),
        None => false,
    }
}

pub fn significant_leaf(node: &SyntaxNode) -> (result: bool)
    ensures
        result == is_significant(*node),
{
    match node.leaf {
        Some(leaf) => !matches!(leaf.channel, ContentChannel::Comment | ContentChannel::Layout),
        None => false,
    }
}

/// Exact decorations presented with their semantic owner, never as independent signals.
pub struct PresentationDependents {
    pub before: Vec<NodeId>,
    pub after: Vec<NodeId>,
}

impl PresentationDependents {
    pub open spec fn wf(self) -> bool {
        ascending(self.before@) && ascending(self.after@)
    }
}

/// Add the leaves below a node.
fn add_leaves(tree: &SyntaxTree, id: NodeId, leaves: &mut Vec<NodeId>)
    requires
        tree.wf(),
        tree.has_node(id as int),
        ascending(old(leaves)@),
    ensures
        ascending(final(leaves)@),
        forall|leaf: NodeId| #[trigger]
            final(leaves)@.contains(leaf) <==> old(leaves)@.contains(leaf) || (tree.in_subtree(
                id as int,
                leaf as int,
            ) && tree.nodes@[leaf as int].is_content_leaf()),
{
    let below = tree.descendant_leaves(id);
    proof {
        assert(crate::syntax::node_fits(
            tree.nodes@[id as int],
            id as int,
            tree.nodes@.len() as int,
            tree.source.data().len() as int,
        ));
    }
    let mut index: usize = 0;
    while index < below.len()
        invariant
            index <= below@.len(),
            ascending(leaves@),
            forall|leaf: NodeId| #[trigger]
                leaves@.contains(leaf) <==> old(leaves)@.contains(leaf) || below@.take(
                    index as int,
                ).contains(leaf),
        decreases below@.len() - index,
    {
        let leaf = below[index];
        insert_ascending(leaves, leaf);
        proof {
            let shorter = below@.take(index as int);
            let longer = below@.take(index + 1);
            assert(longer =~= shorter.push(leaf));
            assert forall|other: NodeId| longer.contains(other) <==> shorter.contains(other)
                || other == leaf by {
                if longer.contains(other) {
                    let k = choose|k: int| 0 <= k < longer.len() && longer[k] == other;
                    if k < index {
                        assert(shorter[k] == other);
                    }
                }
                if shorter.contains(other) {
                    let k = choose|k: int| 0 <= k < shorter.len() && shorter[k] == other;
                    assert(longer[k] == other);
                }
                assert(longer[index as int] == leaf);
            }
        }
        index += 1;
    }
    proof {
        assert(below@.take(index as int) =~= below@);
        assert forall|leaf: NodeId| below@.contains(leaf) <==> (tree.in_subtree(
            id as int,
            leaf as int,
        ) && tree.nodes@[leaf as int].is_content_leaf()) by {
            if below@.contains(leaf) {
                let k = choose|k: int| 0 <= k < below@.len() && below@[k] == leaf;
                assert(below@[k] < tree.nodes@[id as int].subtree_end);
            }
            if tree.in_subtree(id as int, leaf as int)
                && tree.nodes@[leaf as int].is_content_leaf() {
                assert(tree.nodes@[leaf as int].is_content_leaf());
            }
        }
    }
}

/// Both nodes fill their lines, and the lines are equal.
fn physically_equal_isolated_nodes(scene: &PlanScene<'_>, before: NodeId, after: NodeId) -> (result:
    bool)
    requires
        scene.wf(),
        scene.pair.before.has_node(before as int),
        scene.pair.after.has_node(after as int),
    ensures
        result == isolated_equals(*scene, before as int, after as int),
{
    if !node_is_line_isolated(&scene.pair.before, before, true) || !node_is_line_isolated(
        &scene.pair.after,
        after,
        true,
    ) {
        return false;
    }
    let old_rows = zero_based_lines(&scene.pair.before, before);
    let new_rows = zero_based_lines(&scene.pair.after, after);
    physical_lines_equal(scene.pair, old_rows, new_rows)
}

/// Both nodes fill their lines, and the lines are equal.
pub open spec fn isolated_equals(scene: PlanScene<'_>, before: int, after: int) -> bool {
    &&& crate::plan::scene::line_isolated(scene.pair.before, before, true)
    &&& crate::plan::scene::line_isolated(scene.pair.after, after, true)
    &&& crate::plan::scene::rows_equal(
        *scene.pair,
        row_span(scene.pair.before, before),
        row_span(scene.pair.after, after),
    )
}

/// Both nodes decorate others and equal one another line by line.
pub open spec fn is_dependent(scene: PlanScene<'_>, before: int, after: int) -> bool {
    scene.pair.before.nodes@[before].decoration_owner is Some
        && scene.pair.after.nodes@[after].decoration_owner is Some && isolated_equals(
        scene,
        before,
        after,
    )
}

/// Some of the links joins equal decorations, the old one holding the leaf.
pub open spec fn depends_before(
    scene: PlanScene<'_>,
    composites: Seq<NodeLink>,
    links: Seq<LeafLink>,
    leaf: NodeId,
) -> bool {
    ||| exists|k: int|
        0 <= k < composites.len() && is_dependent(
            scene,
            (#[trigger] composites[k]).before as int,
            composites[k].after as int,
        ) && scene.pair.before.in_subtree(composites[k].before as int, leaf as int)
            && scene.pair.before.nodes@[leaf as int].is_content_leaf()
    ||| exists|k: int|
        0 <= k < links.len() && (#[trigger] links[k]).relation == LeafRelation::Exact
            && is_dependent(scene, links[k].before as int, links[k].after as int)
            && links[k].before == leaf
}

/// Some of the links joins equal decorations, the current one holding the leaf.
pub open spec fn depends_after(
    scene: PlanScene<'_>,
    composites: Seq<NodeLink>,
    links: Seq<LeafLink>,
    leaf: NodeId,
) -> bool {
    ||| exists|k: int|
        0 <= k < composites.len() && is_dependent(
            scene,
            (#[trigger] composites[k]).before as int,
            composites[k].after as int,
        ) && scene.pair.after.in_subtree(composites[k].after as int, leaf as int)
            && scene.pair.after.nodes@[leaf as int].is_content_leaf()
    ||| exists|k: int|
        0 <= k < links.len() && (#[trigger] links[k]).relation == LeafRelation::Exact
            && is_dependent(scene, links[k].before as int, links[k].after as int)
            && links[k].after == leaf
}

/// The lists are exactly the leaves of equal decorations.
pub open spec fn are_dependents(
    scene: PlanScene<'_>,
    composites: Seq<NodeLink>,
    links: Seq<LeafLink>,
    before: Seq<NodeId>,
    after: Seq<NodeId>,
) -> bool {
    &&& forall|leaf: NodeId| #[trigger]
        before.contains(leaf) <==> depends_before(scene, composites, links, leaf)
    &&& forall|leaf: NodeId| #[trigger]
        after.contains(leaf) <==> depends_after(scene, composites, links, leaf)
}

/// One more link of either list.
proof fn lemma_dependents_grow(
    scene: PlanScene<'_>,
    composites: Seq<NodeLink>,
    links: Seq<LeafLink>,
    link: NodeLink,
    leaf_link: LeafLink,
    leaf: NodeId,
)
    ensures
        depends_before(scene, composites.push(link), links, leaf) <==> depends_before(
            scene,
            composites,
            links,
            leaf,
        ) || is_dependent(scene, link.before as int, link.after as int)
            && scene.pair.before.in_subtree(link.before as int, leaf as int)
            && scene.pair.before.nodes@[leaf as int].is_content_leaf(),
        depends_after(scene, composites.push(link), links, leaf) <==> depends_after(
            scene,
            composites,
            links,
            leaf,
        ) || is_dependent(scene, link.before as int, link.after as int)
            && scene.pair.after.in_subtree(link.after as int, leaf as int)
            && scene.pair.after.nodes@[leaf as int].is_content_leaf(),
        depends_before(scene, composites, links.push(leaf_link), leaf) <==> depends_before(
            scene,
            composites,
            links,
            leaf,
        ) || leaf_link.relation == LeafRelation::Exact && is_dependent(
            scene,
            leaf_link.before as int,
            leaf_link.after as int,
        ) && leaf_link.before == leaf,
        depends_after(scene, composites, links.push(leaf_link), leaf) <==> depends_after(
            scene,
            composites,
            links,
            leaf,
        ) || leaf_link.relation == LeafRelation::Exact && is_dependent(
            scene,
            leaf_link.before as int,
            leaf_link.after as int,
        ) && leaf_link.after == leaf,
{
    let more = composites.push(link);
    let longer = links.push(leaf_link);
    assert(more[composites.len() as int] == link);
    assert(longer[links.len() as int] == leaf_link);
    assert forall|k: int| 0 <= k < composites.len() implies more[k] == #[trigger] composites[k] by {
    }
    assert forall|k: int| 0 <= k < links.len() implies longer[k] == #[trigger] links[k] by {}
}

/// Both nodes decorate others and equal one another line by line.
fn dependent_pair(scene: &PlanScene<'_>, before: NodeId, after: NodeId) -> (result: bool)
    requires
        scene.wf(),
        scene.pair.before.has_node(before as int),
        scene.pair.after.has_node(after as int),
    ensures
        result == is_dependent(*scene, before as int, after as int),
{
    scene.pair.before.nodes[before].decoration_owner.is_some()
        && scene.pair.after.nodes[after].decoration_owner.is_some()
        && physically_equal_isolated_nodes(scene, before, after)
}

/// Decorations that equal their counterparts line by line.
#[verifier::rlimit(60)]
#[verifier::spinoff_prover]
pub fn presentation_dependents(scene: &PlanScene<'_>, unit: &MatchedUnit) -> (dependents:
    PresentationDependents)
    requires
        scene.wf(),
        scene.unit_fits(*unit),
    ensures
        dependents.wf(),
        are_dependents(
            *scene,
            scene.graph.tree.composites@.subrange(
                unit.composites.start as int,
                unit.composites.end as int,
            ),
            scene.graph.tree.leaves.links@.subrange(
                unit.leaf_links.start as int,
                unit.leaf_links.end as int,
            ),
            dependents.before@,
            dependents.after@,
        ),
{
    let mut before: Vec<NodeId> = Vec::new();
    let mut after: Vec<NodeId> = Vec::new();
    let composites = scene.graph.tree.unit_composites(unit);
    let mut index: usize = 0;
    let ghost no_links = Seq::<LeafLink>::empty();
    assert(composites@.take(0) =~= Seq::empty());
    while index < composites.len()
        invariant
            scene.wf(),
            scene.unit_fits(*unit),
            composites@ == scene.graph.tree.composites@.subrange(
                unit.composites.start as int,
                unit.composites.end as int,
            ),
            index <= composites@.len(),
            no_links.len() == 0,
            are_dependents(
                *scene,
                composites@.take(index as int),
                no_links,
                before@,
                after@,
            ),
            ascending(before@),
            ascending(after@),
        decreases composites@.len() - index,
    {
        let link = composites[index];
        proof {
            assert(link == scene.graph.tree.composites@[unit.composites.start + index]);
        }
        if dependent_pair(scene, link.before, link.after) {
            add_leaves(&scene.pair.before, link.before, &mut before);
            add_leaves(&scene.pair.after, link.after, &mut after);
        }
        proof {
            let fewer = composites@.take(index as int);
            assert(composites@.take(index + 1) =~= fewer.push(link));
            assert forall|leaf: NodeId| #[trigger] before@.contains(leaf) <==> depends_before(
                *scene,
                composites@.take(index + 1),
                no_links,
                leaf,
            ) by {
                let any = arbitrary();
                lemma_dependents_grow(*scene, fewer, no_links, link, any, leaf);
            }
            assert forall|leaf: NodeId| #[trigger] after@.contains(leaf) <==> depends_after(
                *scene,
                composites@.take(index + 1),
                no_links,
                leaf,
            ) by {
                let any = arbitrary();
                lemma_dependents_grow(*scene, fewer, no_links, link, any, leaf);
            }
        }
        index += 1;
    }
    assert(composites@.take(index as int) =~= composites@);
    let links = scene.graph.tree.unit_leaf_links(unit);
    let mut at: usize = 0;
    assert(links@.take(0) =~= no_links);
    while at < links.len()
        invariant
            scene.wf(),
            scene.unit_fits(*unit),
            links@ == scene.graph.tree.leaves.links@.subrange(
                unit.leaf_links.start as int,
                unit.leaf_links.end as int,
            ),
            at <= links@.len(),
            are_dependents(*scene, composites@, links@.take(at as int), before@, after@),
            ascending(before@),
            ascending(after@),
        decreases links@.len() - at,
    {
        let link = links[at];
        proof {
            assert(link == scene.graph.tree.leaves.links@[unit.leaf_links.start + at]);
        }
        if matches!(link.relation, LeafRelation::Exact) && dependent_pair(
            scene,
            link.before,
            link.after,
        ) {
            insert_ascending(&mut before, link.before);
            insert_ascending(&mut after, link.after);
        }
        proof {
            let fewer = links@.take(at as int);
            assert(links@.take(at + 1) =~= fewer.push(link));
            assert forall|leaf: NodeId| #[trigger] before@.contains(leaf) <==> depends_before(
                *scene,
                composites@,
                links@.take(at + 1),
                leaf,
            ) by {
                let any = arbitrary();
                lemma_dependents_grow(*scene, composites@, fewer, any, link, leaf);
            }
            assert forall|leaf: NodeId| #[trigger] after@.contains(leaf) <==> depends_after(
                *scene,
                composites@,
                links@.take(at + 1),
                leaf,
            ) by {
                let any = arbitrary();
                lemma_dependents_grow(*scene, composites@, fewer, any, link, leaf);
            }
        }
        at += 1;
    }
    assert(links@.take(at as int) =~= links@);
    PresentationDependents { before, after }
}

/// The link joins comments that did not stay as they were.
pub open spec fn is_changed_comment(
    scene: PlanScene<'_>,
    link: LeafLink,
    dependents: PresentationDependents,
) -> bool {
    &&& is_comment(scene.pair.before.nodes@[link.before as int])
    &&& is_comment(scene.pair.after.nodes@[link.after as int])
    &&& !(dependents.before@.contains(link.before) && dependents.after@.contains(link.after))
    &&& !(link.relation == LeafRelation::Exact && link.placement == Placement::Stable
        && link.wrapper is None && link.parent
        == crate::correspondence::links::ParentCorrespondence::Direct)
}

/// Rows of both nodes of a link, paired in order.
pub open spec fn link_edits(scene: PlanScene<'_>, link: LeafLink) -> Seq<LineEdit> {
    zipped(
        row_span(scene.pair.before, link.before as int),
        row_span(scene.pair.after, link.after as int),
    )
}

/// Rows of an old node alone.
pub open spec fn removed_edits(scene: PlanScene<'_>, id: int) -> Seq<LineEdit> {
    zipped(row_span(scene.pair.before, id), Span { start: 0, end: 0 })
}

/// Rows of a current node alone.
pub open spec fn added_edits(scene: PlanScene<'_>, id: int) -> Seq<LineEdit> {
    zipped(Span { start: 0, end: 0 }, row_span(scene.pair.after, id))
}

/// Appending keeps what was listed and lists the addition.
proof fn lemma_listed(first: Seq<LineEdit>, second: Seq<LineEdit>)
    ensures
        all_listed(first, first + second),
        all_listed(second, first + second),
{
    assert forall|edit: LineEdit| first.contains(edit) implies #[trigger] (first + second).contains(
        edit,
    ) by {
        let k = choose|k: int| 0 <= k < first.len() && first[k] == edit;
        assert((first + second)[k] == edit);
    }
    assert forall|edit: LineEdit| second.contains(edit) implies #[trigger] (first
        + second).contains(edit) by {
        let k = choose|k: int| 0 <= k < second.len() && second[k] == edit;
        assert((first + second)[first.len() + k] == edit);
    }
}

/// Edits of the leaf links that pass a test: changed comments, or modified payload.
fn linked_edits(
    scene: &PlanScene<'_>,
    unit: &MatchedUnit,
    dependents: &PresentationDependents,
    comments: bool,
) -> (edits: Vec<LineEdit>)
    requires
        scene.wf(),
        scene.unit_fits(*unit),
        dependents.wf(),
    ensures
        edits_fit(*scene, edits@),
        lists_links(*scene, *unit, *dependents, comments, edits@),
        come_from_links(*scene, *unit, *dependents, comments, edits@),
{
    let links = scene.graph.tree.unit_leaf_links(unit);
    let mut edits: Vec<LineEdit> = Vec::new();
    let mut index: usize = 0;
    while index < links.len()
        invariant
            scene.wf(),
            scene.unit_fits(*unit),
            dependents.wf(),
            links@ == scene.graph.tree.leaves.links@.subrange(
                unit.leaf_links.start as int,
                unit.leaf_links.end as int,
            ),
            index <= links@.len(),
            edits_fit(*scene, edits@),
            forall|k: int|
                0 <= k < index && selects_link(
                    *scene,
                    #[trigger] links@[k],
                    *dependents,
                    comments,
                ) ==> all_listed(link_edits(*scene, links@[k]), edits@),
            come_from_links(*scene, *unit, *dependents, comments, edits@),
        decreases links@.len() - index,
    {
        let link = links[index];
        proof {
            assert(link == scene.graph.tree.leaves.links@[unit.leaf_links.start + index]);
        }
        let old_node = &scene.pair.before.nodes[link.before];
        let new_node = &scene.pair.after.nodes[link.after];
        let selected = if comments {
            comment_leaf(old_node) && comment_leaf(new_node) && !(holds(
                &dependents.before,
                link.before,
            ) && holds(&dependents.after, link.after)) && !(matches!(
                link.relation,
                LeafRelation::Exact
            ) && matches!(link.placement, Placement::Stable) && !link.reparented())
        } else {
            matches!(link.relation, LeafRelation::Modified) && significant_leaf(old_node)
                && significant_leaf(new_node) && !same_bytes(
                scene.pair.before.source.as_bytes(),
                old_node.bytes.start,
                old_node.bytes.end,
                scene.pair.after.source.as_bytes(),
                new_node.bytes.start,
                new_node.bytes.end,
            )
        };
        let ghost earlier = edits@;
        if selected {
            let old_rows = zero_based_lines(&scene.pair.before, link.before);
            let new_rows = zero_based_lines(&scene.pair.after, link.after);
            append_changed_line_edits(scene, &mut edits, old_rows, new_rows);
            proof {
                lemma_listed(earlier, link_edits(*scene, link));
                let part = link_edits(*scene, link);
                let at = unit.leaf_links.start + index;
                assert(scene.graph.tree.leaves.links@[at] == link);
                assert(edits@ =~= earlier + part);
                assert forall|edit: LineEdit| #[trigger] edits@.contains(edit) implies is_link_edit(
                    *scene,
                    *unit,
                    *dependents,
                    comments,
                    edit,
                ) by {
                    let k = choose|k: int| 0 <= k < edits@.len() && edits@[k] == edit;
                    if k < earlier.len() {
                        assert(earlier[k] == edit);
                        assert(earlier.contains(edit));
                    } else {
                        assert(part[k - earlier.len()] == edit);
                        assert(selects_link(
                            *scene,
                            scene.graph.tree.leaves.links@[at],
                            *dependents,
                            comments,
                        ));
                    }
                }
            }
        }
        proof {
            assert forall|k: int|
                0 <= k < index + 1 && selects_link(
                    *scene,
                    #[trigger] links@[k],
                    *dependents,
                    comments,
                ) implies all_listed(link_edits(*scene, links@[k]), edits@) by {
                if k < index {
                    let part = link_edits(*scene, links@[k]);
                    assert forall|edit: LineEdit| part.contains(
                        edit,
                    ) implies #[trigger] edits@.contains(edit) by {
                        assert(earlier.contains(edit));
                    }
                }
            }
        }
        index += 1;
    }
    proof {
        assert forall|k: int|
            unit.leaf_links.start <= k < unit.leaf_links.end && selects_link(
                *scene,
                #[trigger] scene.graph.tree.leaves.links@[k],
                *dependents,
                comments,
            ) implies all_listed(
            link_edits(*scene, scene.graph.tree.leaves.links@[k]),
            edits@,
        ) by {
            assert(links@[k - unit.leaf_links.start] == scene.graph.tree.leaves.links@[k]);
        }
    }
    edits
}

/// The link is a changed comment, or modified payload.
pub open spec fn selects_link(
    scene: PlanScene<'_>,
    link: LeafLink,
    dependents: PresentationDependents,
    comments: bool,
) -> bool {
    if comments {
        is_changed_comment(scene, link, dependents)
    } else {
        &&& link.relation == LeafRelation::Modified
        &&& is_significant(scene.pair.before.nodes@[link.before as int])
        &&& is_significant(scene.pair.after.nodes@[link.after as int])
        &&& !spells_alike(scene, link)
    }
}

/// Both leaves of the link have the same text.
pub open spec fn spells_alike(scene: PlanScene<'_>, link: LeafLink) -> bool {
    let old_bytes = scene.pair.before.nodes@[link.before as int].bytes;
    let new_bytes = scene.pair.after.nodes@[link.after as int].bytes;
    scene.pair.before.source.data().subrange(old_bytes.start as int, old_bytes.end as int)
        == scene.pair.after.source.data().subrange(new_bytes.start as int, new_bytes.end as int)
}

/// Every selected link of the unit has its rows among the edits.
pub open spec fn lists_links(
    scene: PlanScene<'_>,
    unit: MatchedUnit,
    dependents: PresentationDependents,
    comments: bool,
    edits: Seq<LineEdit>,
) -> bool {
    forall|k: int|
        unit.leaf_links.start <= k < unit.leaf_links.end && selects_link(
            scene,
            #[trigger] scene.graph.tree.leaves.links@[k],
            dependents,
            comments,
        ) ==> all_listed(link_edits(scene, scene.graph.tree.leaves.links@[k]), edits)
}

/// Every edit is a row of a selected link of the unit.
pub open spec fn come_from_links(
    scene: PlanScene<'_>,
    unit: MatchedUnit,
    dependents: PresentationDependents,
    comments: bool,
    edits: Seq<LineEdit>,
) -> bool {
    forall|edit: LineEdit| #[trigger]
        edits.contains(edit) ==> is_link_edit(scene, unit, dependents, comments, edit)
}

/// The edit is a row of a selected link of the unit.
pub open spec fn is_link_edit(
    scene: PlanScene<'_>,
    unit: MatchedUnit,
    dependents: PresentationDependents,
    comments: bool,
    edit: LineEdit,
) -> bool {
    exists|k: int|
        unit.leaf_links.start <= k < unit.leaf_links.end && selects_link(
            scene,
            #[trigger] scene.graph.tree.leaves.links@[k],
            dependents,
            comments,
        ) && link_edits(scene, scene.graph.tree.leaves.links@[k]).contains(edit)
}

/// Position of a link inside the unit, or nothing.
pub open spec fn linked_in_unit(entry: Option<usize>, unit: MatchedUnit) -> bool {
    entry matches Some(index) && unit.leaf_links.has(index as int)
}

/// Every old comment of the unit without a partner has its rows among the edits.
pub open spec fn lists_removed_comments(
    scene: PlanScene<'_>,
    unit: MatchedUnit,
    edits: Seq<LineEdit>,
) -> bool {
    forall|id: int|
        scene.pair.before.in_subtree(unit.before as int, id) && is_comment(
            #[trigger] scene.pair.before.nodes@[id],
        ) && !linked_in_unit(scene.graph.tree.leaves.before@[id], unit) ==> all_listed(
            removed_edits(scene, id),
            edits,
        )
}

/// Every current comment of the unit without a partner has its rows among the edits.
pub open spec fn lists_added_comments(
    scene: PlanScene<'_>,
    unit: MatchedUnit,
    edits: Seq<LineEdit>,
) -> bool {
    forall|id: int|
        scene.pair.after.in_subtree(unit.after as int, id) && is_comment(
            #[trigger] scene.pair.after.nodes@[id],
        ) && !linked_in_unit(scene.graph.tree.leaves.after@[id], unit) ==> all_listed(
            added_edits(scene, id),
            edits,
        )
}

/// The edit is a row of an old comment of the unit without a partner.
pub open spec fn is_removed_comment(
    scene: PlanScene<'_>,
    unit: MatchedUnit,
    edit: LineEdit,
) -> bool {
    exists|id: int|
        scene.pair.before.in_subtree(unit.before as int, id) && is_comment(
            #[trigger] scene.pair.before.nodes@[id],
        ) && !linked_in_unit(scene.graph.tree.leaves.before@[id], unit) && removed_edits(
            scene,
            id,
        ).contains(edit)
}

/// The edit is a row of a current comment of the unit without a partner.
pub open spec fn is_added_comment(
    scene: PlanScene<'_>,
    unit: MatchedUnit,
    edit: LineEdit,
) -> bool {
    exists|id: int|
        scene.pair.after.in_subtree(unit.after as int, id) && is_comment(
            #[trigger] scene.pair.after.nodes@[id],
        ) && !linked_in_unit(scene.graph.tree.leaves.after@[id], unit) && added_edits(
            scene,
            id,
        ).contains(edit)
}

/// The edit is a row of a comment that changed, was removed or was added.
pub open spec fn is_comment_edit(
    scene: PlanScene<'_>,
    unit: MatchedUnit,
    dependents: PresentationDependents,
    edit: LineEdit,
) -> bool {
    ||| is_link_edit(scene, unit, dependents, true, edit)
    ||| is_removed_comment(scene, unit, edit)
    ||| is_added_comment(scene, unit, edit)
}

/// The edits are the rows of comments that changed, were removed or were added.
pub open spec fn are_comment_edits(
    scene: PlanScene<'_>,
    unit: MatchedUnit,
    dependents: PresentationDependents,
    edits: Seq<LineEdit>,
) -> bool {
    forall|edit: LineEdit| #[trigger]
        edits.contains(edit) <==> is_comment_edit(scene, unit, dependents, edit)
}

/// The leaves that the unit presents with others.
pub open spec fn are_unit_dependents(
    scene: PlanScene<'_>,
    unit: MatchedUnit,
    dependents: PresentationDependents,
) -> bool {
    are_dependents(
        scene,
        scene.graph.tree.composites@.subrange(
            unit.composites.start as int,
            unit.composites.end as int,
        ),
        scene.graph.tree.leaves.links@.subrange(
            unit.leaf_links.start as int,
            unit.leaf_links.end as int,
        ),
        dependents.before@,
        dependents.after@,
    )
}

/// Whether a leaf is linked inside the unit.
fn entry_in_unit(entry: Option<usize>, unit: &MatchedUnit) -> (result: bool)
    ensures
        result == linked_in_unit(entry, *unit),
{
    match entry {
        Some(index) => unit.leaf_links.contains(index),
        None => false,
    }
}

/// Append the rows of old comments without a partner.
fn append_removed_comments(scene: &PlanScene<'_>, unit: &MatchedUnit, edits: &mut Vec<LineEdit>)
    requires
        scene.wf(),
        scene.unit_fits(*unit),
        edits_fit(*scene, old(edits)@),
    ensures
        edits_fit(*scene, final(edits)@),
        all_listed(old(edits)@, final(edits)@),
        lists_removed_comments(*scene, *unit, final(edits)@),
        forall|edit: LineEdit| #[trigger]
            final(edits)@.contains(edit) ==> old(edits)@.contains(edit) || is_removed_comment(
                *scene,
                *unit,
                edit,
            ),
{
    let tree = &scene.pair.before;
    proof {
        assert(crate::syntax::node_fits(
            tree.nodes@[unit.before as int],
            unit.before as int,
            tree.nodes@.len() as int,
            tree.source.data().len() as int,
        ));
    }
    let end = tree.nodes[unit.before].subtree_end;
    let mut id = unit.before;
    while id < end
        invariant
            scene.wf(),
            scene.unit_fits(*unit),
            *tree == scene.pair.before,
            unit.before <= id <= end <= tree.nodes@.len(),
            edits_fit(*scene, edits@),
            all_listed(old(edits)@, edits@),
            forall|other: int|
                unit.before <= other < id && is_comment(#[trigger] tree.nodes@[other])
                    && !linked_in_unit(scene.graph.tree.leaves.before@[other], *unit)
                    ==> all_listed(removed_edits(*scene, other), edits@),
            end == tree.nodes@[unit.before as int].subtree_end,
            forall|edit: LineEdit| #[trigger]
                edits@.contains(edit) ==> old(edits)@.contains(edit) || is_removed_comment(
                    *scene,
                    *unit,
                    edit,
                ),
        decreases end - id,
    {
        let ghost earlier = edits@;
        if comment_leaf(&tree.nodes[id]) && !entry_in_unit(
            scene.graph.tree.leaves.before[id],
            unit,
        ) {
            let rows = zero_based_lines(tree, id);
            append_changed_line_edits(scene, edits, rows, Span { start: 0, end: 0 });
            proof {
                lemma_listed(earlier, removed_edits(*scene, id as int));
                assert(is_comment(scene.pair.before.nodes@[id as int]));
                assert forall|edit: LineEdit| #[trigger]
                    edits@.contains(edit) implies old(edits)@.contains(edit) || is_removed_comment(
                    *scene,
                    *unit,
                    edit,
                ) by {
                    let part = removed_edits(*scene, id as int);
                    let k = choose|k: int| 0 <= k < edits@.len() && edits@[k] == edit;
                    if k < earlier.len() {
                        assert(earlier[k] == edit);
                        assert(earlier.contains(edit));
                    } else {
                        assert(part[k - earlier.len()] == edit);
                        assert(part.contains(edit));
                    }
                }
            }
        }
        proof {
            assert(all_listed(earlier, edits@));
            assert forall|other: int|
                unit.before <= other < id + 1 && is_comment(#[trigger] tree.nodes@[other])
                    && !linked_in_unit(
                    scene.graph.tree.leaves.before@[other],
                    *unit,
                ) implies all_listed(removed_edits(*scene, other), edits@) by {
                if other < id {
                    let part = removed_edits(*scene, other);
                    assert forall|edit: LineEdit| part.contains(
                        edit,
                    ) implies #[trigger] edits@.contains(edit) by {
                        assert(earlier.contains(edit));
                    }
                }
            }
            assert forall|edit: LineEdit| old(edits)@.contains(
                edit,
            ) implies #[trigger] edits@.contains(edit) by {
                assert(earlier.contains(edit));
            }
        }
        id += 1;
    }
}

/// Append the rows of current comments without a partner.
fn append_added_comments(scene: &PlanScene<'_>, unit: &MatchedUnit, edits: &mut Vec<LineEdit>)
    requires
        scene.wf(),
        scene.unit_fits(*unit),
        edits_fit(*scene, old(edits)@),
    ensures
        edits_fit(*scene, final(edits)@),
        all_listed(old(edits)@, final(edits)@),
        lists_added_comments(*scene, *unit, final(edits)@),
        forall|edit: LineEdit| #[trigger]
            final(edits)@.contains(edit) ==> old(edits)@.contains(edit) || is_added_comment(
                *scene,
                *unit,
                edit,
            ),
{
    let tree = &scene.pair.after;
    proof {
        assert(crate::syntax::node_fits(
            tree.nodes@[unit.after as int],
            unit.after as int,
            tree.nodes@.len() as int,
            tree.source.data().len() as int,
        ));
    }
    let end = tree.nodes[unit.after].subtree_end;
    let mut id = unit.after;
    while id < end
        invariant
            scene.wf(),
            scene.unit_fits(*unit),
            *tree == scene.pair.after,
            unit.after <= id <= end <= tree.nodes@.len(),
            edits_fit(*scene, edits@),
            all_listed(old(edits)@, edits@),
            forall|other: int|
                unit.after <= other < id && is_comment(#[trigger] tree.nodes@[other])
                    && !linked_in_unit(scene.graph.tree.leaves.after@[other], *unit)
                    ==> all_listed(added_edits(*scene, other), edits@),
            end == tree.nodes@[unit.after as int].subtree_end,
            forall|edit: LineEdit| #[trigger]
                edits@.contains(edit) ==> old(edits)@.contains(edit) || is_added_comment(
                    *scene,
                    *unit,
                    edit,
                ),
        decreases end - id,
    {
        let ghost earlier = edits@;
        if comment_leaf(&tree.nodes[id]) && !entry_in_unit(
            scene.graph.tree.leaves.after[id],
            unit,
        ) {
            let rows = zero_based_lines(tree, id);
            append_changed_line_edits(scene, edits, Span { start: 0, end: 0 }, rows);
            proof {
                lemma_listed(earlier, added_edits(*scene, id as int));
                assert(is_comment(scene.pair.after.nodes@[id as int]));
                assert forall|edit: LineEdit| #[trigger]
                    edits@.contains(edit) implies old(edits)@.contains(edit) || is_added_comment(
                    *scene,
                    *unit,
                    edit,
                ) by {
                    let part = added_edits(*scene, id as int);
                    let k = choose|k: int| 0 <= k < edits@.len() && edits@[k] == edit;
                    if k < earlier.len() {
                        assert(earlier[k] == edit);
                        assert(earlier.contains(edit));
                    } else {
                        assert(part[k - earlier.len()] == edit);
                        assert(part.contains(edit));
                    }
                }
            }
        }
        proof {
            assert(all_listed(earlier, edits@));
            assert forall|other: int|
                unit.after <= other < id + 1 && is_comment(#[trigger] tree.nodes@[other])
                    && !linked_in_unit(
                    scene.graph.tree.leaves.after@[other],
                    *unit,
                ) implies all_listed(added_edits(*scene, other), edits@) by {
                if other < id {
                    let part = added_edits(*scene, other);
                    assert forall|edit: LineEdit| part.contains(
                        edit,
                    ) implies #[trigger] edits@.contains(edit) by {
                        assert(earlier.contains(edit));
                    }
                }
            }
            assert forall|edit: LineEdit| old(edits)@.contains(
                edit,
            ) implies #[trigger] edits@.contains(edit) by {
                assert(earlier.contains(edit));
            }
        }
        id += 1;
    }
}

/// Edits of changed, removed and added comments, in order.
pub fn comment_edits(scene: &PlanScene<'_>, unit: &MatchedUnit, dependents: &PresentationDependents) -> (
    edits: Vec<LineEdit>)
    requires
        scene.wf(),
        scene.unit_fits(*unit),
        dependents.wf(),
    ensures
        edits_fit(*scene, edits@),
        edits_ascend(edits@),
        lists_links(*scene, *unit, *dependents, true, edits@),
        lists_removed_comments(*scene, *unit, edits@),
        lists_added_comments(*scene, *unit, edits@),
        are_comment_edits(*scene, *unit, *dependents, edits@),
{
    let mut edits = linked_edits(scene, unit, dependents, true);
    let ghost first = edits@;
    append_removed_comments(scene, unit, &mut edits);
    let ghost second = edits@;
    append_added_comments(scene, unit, &mut edits);
    let ghost third = edits@;
    let result = deduplicate_line_edits(edits);
    proof {
        lemma_same_members_fit(*scene, third, result@);
        assert forall|edit: LineEdit| third.contains(edit) implies #[trigger] result@.contains(
            edit,
        ) by {}
        lemma_lists_more(*scene, *unit, *dependents, true, first, result@);
        assert(all_listed(second, result@)) by {
            assert forall|edit: LineEdit| second.contains(edit) implies #[trigger] result@.contains(
                edit,
            ) by {
                assert(third.contains(edit));
            }
        }
        assert forall|id: int|
            scene.pair.before.in_subtree(unit.before as int, id) && is_comment(
                #[trigger] scene.pair.before.nodes@[id],
            ) && !linked_in_unit(
                scene.graph.tree.leaves.before@[id],
                *unit,
            ) implies all_listed(removed_edits(*scene, id), result@) by {
            let part = removed_edits(*scene, id);
            assert forall|edit: LineEdit| part.contains(edit) implies #[trigger] result@.contains(
                edit,
            ) by {
                assert(second.contains(edit));
            }
        }
        assert forall|id: int|
            scene.pair.after.in_subtree(unit.after as int, id) && is_comment(
                #[trigger] scene.pair.after.nodes@[id],
            ) && !linked_in_unit(
                scene.graph.tree.leaves.after@[id],
                *unit,
            ) implies all_listed(added_edits(*scene, id), result@) by {
            let part = added_edits(*scene, id);
            assert forall|edit: LineEdit| part.contains(edit) implies #[trigger] result@.contains(
                edit,
            ) by {
                assert(third.contains(edit));
            }
        }
        assert forall|edit: LineEdit| #[trigger] result@.contains(edit) <==> is_comment_edit(
            *scene,
            *unit,
            *dependents,
            edit,
        ) by {
            if result@.contains(edit) {
                assert(third.contains(edit));
                if second.contains(edit) {
                    if first.contains(edit) {
                        assert(is_link_edit(*scene, *unit, *dependents, true, edit));
                    }
                }
            }
        }
    }
    result
}

/// A longer list still lists the links.
pub proof fn lemma_lists_more(
    scene: PlanScene<'_>,
    unit: MatchedUnit,
    dependents: PresentationDependents,
    comments: bool,
    some: Seq<LineEdit>,
    all: Seq<LineEdit>,
)
    requires
        lists_links(scene, unit, dependents, comments, some),
        all_listed(some, all),
    ensures
        lists_links(scene, unit, dependents, comments, all),
{
    assert forall|k: int|
        unit.leaf_links.start <= k < unit.leaf_links.end && selects_link(
            scene,
            #[trigger] scene.graph.tree.leaves.links@[k],
            dependents,
            comments,
        ) implies all_listed(link_edits(scene, scene.graph.tree.leaves.links@[k]), all) by {
        let part = link_edits(scene, scene.graph.tree.leaves.links@[k]);
        assert forall|edit: LineEdit| part.contains(edit) implies #[trigger] all.contains(edit) by {
            assert(some.contains(edit));
        }
    }
}

/// Edits of modified payload, in order.
pub fn modified_payload_edits(
    scene: &PlanScene<'_>,
    unit: &MatchedUnit,
    dependents: &PresentationDependents,
) -> (edits: Vec<LineEdit>)
    requires
        scene.wf(),
        scene.unit_fits(*unit),
        dependents.wf(),
    ensures
        edits_fit(*scene, edits@),
        edits_ascend(edits@),
        lists_links(*scene, *unit, *dependents, false, edits@),
        come_from_links(*scene, *unit, *dependents, false, edits@),
{
    let edits = linked_edits(scene, unit, dependents, false);
    let ghost listed = edits@;
    let result = deduplicate_line_edits(edits);
    proof {
        lemma_same_members_fit(*scene, listed, result@);
        assert(all_listed(listed, result@));
        lemma_lists_more(*scene, *unit, *dependents, false, listed, result@);
    }
    result
}

} // verus!

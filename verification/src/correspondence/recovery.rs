//! Pair the contexts of two matched units, from the units down to their inner nodes.

use crate::alignment::OrderedMatch;
use crate::correspondence::children::{
    after_side, before_side, children_matched, contextual_child_matches, lemma_grows_chain,
};
use crate::correspondence::contexts::{
    parents_linked, reparenting_of, unique_containment_reparenting, ContextLinks, Scene,
    UnitContext,
};
use crate::correspondence::evidence::{
    is_reciprocal, leads, match_placements, places_longest, reciprocal, reciprocal_unique_matches,
    shared_count, shared_fingerprint_count, Scored,
};
use crate::correspondence::facts::Facts;
use crate::correspondence::links::{Placement, Reparenting};
use crate::correspondence::partners::{indices_below, lemma_spread_apart, mutual, spread, Partners};
use crate::syntax::{
    children_hold, node_fits, parent_holds, ContentChannel, LeafRole, NodeId, SyntaxTree,
};
use crate::frontend::adapter::{on_boundaries, range_chars};
use crate::text::{all_white, blank};
use vstd::prelude::*;
use vstd::utf8::encode_utf8_decode_utf8;

verus! {

/// Composite children of a node, in order.
pub fn direct_composites(tree: &SyntaxTree, parent: NodeId) -> (ids: Vec<NodeId>)
    requires
        tree.wf(),
        tree.has_node(parent as int),
    ensures
        indices_below(ids@, tree.nodes@.len() as int),
        ids@ == tree.nodes@[parent as int].children@.filter(
            |id: NodeId| tree.nodes@[id as int].is_composite(),
        ),
        spread(ids@),
{
    let mut ids: Vec<NodeId> = Vec::new();
    let mut position: usize = 0;
    let ghost keep = |id: NodeId| tree.nodes@[id as int].is_composite();
    assert(tree.nodes@[parent as int].children@.take(0).filter(keep) =~= Seq::<NodeId>::empty())
        by {
        reveal(Seq::filter);
    }
    while position < tree.nodes[parent].children.len()
        invariant
            tree.wf(),
            tree.has_node(parent as int),
            position <= tree.nodes@[parent as int].children@.len(),
            indices_below(ids@, tree.nodes@.len() as int),
            keep == (|id: NodeId| tree.nodes@[id as int].is_composite()),
            ids@ == tree.nodes@[parent as int].children@.take(position as int).filter(keep),
            spread(ids@),
            forall|k: int|
                0 <= k < ids@.len() && position < tree.nodes@[parent as int].children@.len() ==> (
                #[trigger] ids@[k]) < tree.nodes@[parent as int].children@[position as int],
        decreases tree.nodes@[parent as int].children@.len() - position,
    {
        let child = tree.nodes[parent].children[position];
        proof {
            assert(children_hold(tree.nodes@, parent as int));
            assert(tree.nodes@[parent as int].children[position as int] == child);
            assert(node_fits(
                tree.nodes@[parent as int],
                parent as int,
                tree.nodes@.len() as int,
                tree.source.data().len() as int,
            ));
            let children = tree.nodes@[parent as int].children@;
            assert(children.take(position + 1) =~= children.take(position as int).push(child));
            children.take(position as int).lemma_filter_push(child, keep);
        }
        if tree.nodes[child].composite() {
            ids.push(child);
        }
        proof {
            if position + 1 < tree.nodes@[parent as int].children@.len() {
                assert(tree.nodes@[parent as int].children[position as int]
                    < tree.nodes@[parent as int].children[position + 1]);
            }
        }
        position += 1;
    }
    assert(tree.nodes@[parent as int].children@.take(position as int)
        =~= tree.nodes@[parent as int].children@);
    ids
}

/// A leaf that shows what a context holds: written payload other than the context's name.
pub open spec fn is_evidence(tree: SyntaxTree, facts: Facts, root: int, id: int) -> bool {
    &&& tree.nodes@[id].leaf matches Some(leaf) && !leaf.delimiter && leaf.channel
        == ContentChannel::Syntax && leaf.role == LeafRole::Payload
    &&& on_boundaries(tree.source.data(), tree.nodes@[id].bytes)
    &&& !all_white(range_chars(tree.source.data(), tree.nodes@[id].bytes))
    &&& facts.symbols@[id].payload is None || facts.symbols@[id].payload
        != facts.symbols@[root].identity
}

/// Content of the evidence of a context among its nodes below `end`.
pub open spec fn evidence_below(tree: SyntaxTree, facts: Facts, root: int, end: int) -> Seq<usize>
    decreases end,
{
    if end <= root || end <= 0 {
        Seq::empty()
    } else if is_evidence(tree, facts, root, end - 1) {
        evidence_below(tree, facts, root, end - 1).push(facts.prints@[end - 1].full)
    } else {
        evidence_below(tree, facts, root, end - 1)
    }
}

/// Content of the evidence of a context.
pub open spec fn evidence_of(tree: SyntaxTree, facts: Facts, root: int) -> Seq<usize> {
    evidence_below(tree, facts, root, tree.nodes@[root].subtree_end as int)
}

/// Collect payload evidence, excluding the context's name, comments, and delimiters.
fn meaningful_payload_fingerprints(tree: &SyntaxTree, facts: &Facts, root: NodeId) -> (prints: Vec<
    usize,
>)
    requires
        tree.wf(),
        facts.fits(*tree),
        tree.has_node(root as int),
    ensures
        prints@ == evidence_of(*tree, *facts, root as int),
{
    let identity = facts.symbols[root].identity;
    proof {
        assert(node_fits(
            tree.nodes@[root as int],
            root as int,
            tree.nodes@.len() as int,
            tree.source.data().len() as int,
        ));
    }
    let end = tree.nodes[root].subtree_end;
    let mut prints: Vec<usize> = Vec::new();
    let mut id: usize = root;
    while id < end
        invariant
            tree.wf(),
            facts.fits(*tree),
            tree.has_node(root as int),
            root <= id <= end <= tree.nodes@.len(),
            identity == facts.symbols@[root as int].identity,
            prints@ == evidence_below(*tree, *facts, root as int, id as int),
        decreases end - id,
    {
        let meaningful = match tree.nodes[id].leaf {
            None => false,
            Some(leaf) => !leaf.delimiter && leaf.channel == ContentChannel::Syntax && leaf.role
                == LeafRole::Payload,
        };
        if meaningful {
            let named = match (facts.symbols[id].payload, identity) {
                (Some(text), Some(name)) => text == name,
                _ => false,
            };
            let spelled = match tree.leaf_text(id) {
                Some(text) => {
                    proof {
                        encode_utf8_decode_utf8(text@);
                    }
                    !blank(text)
                },
                None => false,
            };
            if spelled && !named {
                prints.push(facts.prints[id].full);
            }
        }
        id += 1;
    }
    prints
}

/// An unlinked and undecorated composite below a unit.
pub open spec fn is_free(
    tree: SyntaxTree,
    linked: Seq<Option<usize>>,
    unit: int,
    id: int,
) -> bool {
    &&& unit < id < tree.nodes@[unit].subtree_end
    &&& tree.nodes@[id].is_composite()
    &&& linked[id] is None
    &&& tree.nodes@[id].decoration_owner is None
}

/// The free composites of a unit below `end`, in order.
spec fn lists_free(
    tree: SyntaxTree,
    linked: Seq<Option<usize>>,
    unit: int,
    end: int,
    ids: Seq<NodeId>,
) -> bool {
    &&& forall|k: int|
        0 <= k < ids.len() ==> (#[trigger] ids[k]) < end && is_free(
            tree,
            linked,
            unit,
            ids[k] as int,
        )
    &&& forall|id: int|
        id < end && #[trigger] is_free(tree, linked, unit, id) ==> ids.contains(id as usize)
    &&& forall|k: int, l: int|
        0 <= k < l < ids.len() ==> (#[trigger] ids[k]) < (#[trigger] ids[l])
}

/// Composites below a unit that are unlinked and undecorated.
fn free_composites(tree: &SyntaxTree, linked: &Vec<Option<usize>>, unit: NodeId) -> (ids: Vec<NodeId>)
    requires
        tree.wf(),
        linked@.len() == tree.nodes@.len(),
        tree.has_node(unit as int),
    ensures
        indices_below(ids@, tree.nodes@.len() as int),
        lists_free(
            *tree,
            linked@,
            unit as int,
            tree.nodes@[unit as int].subtree_end as int,
            ids@,
        ),
{
    let mut ids: Vec<NodeId> = Vec::new();
    proof {
        assert(node_fits(
            tree.nodes@[unit as int],
            unit as int,
            tree.nodes@.len() as int,
            tree.source.data().len() as int,
        ));
    }
    let end = tree.nodes[unit].subtree_end;
    let mut id: usize = unit + 1;
    while id < end
        invariant
            unit < id <= end <= tree.nodes@.len(),
            end == tree.nodes@[unit as int].subtree_end,
            linked@.len() == tree.nodes@.len(),
            lists_free(*tree, linked@, unit as int, id as int, ids@),
        decreases end - id,
    {
        let ghost earlier = ids@;
        if tree.nodes[id].composite() && linked[id].is_none()
            && tree.nodes[id].decoration_owner.is_none() {
            ids.push(id);
        }
        proof {
            assert forall|other: int|
                other < id + 1 && #[trigger] is_free(
                    *tree,
                    linked@,
                    unit as int,
                    other,
                ) implies ids@.contains(other as usize) by {
                if other < id {
                    assert(earlier.contains(other as usize));
                    let k = choose|k: int| 0 <= k < earlier.len() && earlier[k] == other as usize;
                    assert(ids@[k] == other as usize);
                } else {
                    assert(ids@[earlier.len() as int] == other as usize);
                }
            }
        }
        id += 1;
    }
    ids
}

/// Payload evidence of every named candidate; nothing for a nameless one.
fn candidate_payloads(tree: &SyntaxTree, facts: &Facts, ids: &Vec<NodeId>) -> (payloads: Vec<
    Vec<usize>,
>)
    requires
        tree.wf(),
        facts.fits(*tree),
        indices_below(ids@, tree.nodes@.len() as int),
    ensures
        payloads@.len() == ids@.len(),
        holds_evidence(*tree, *facts, ids@, payloads@),
{
    let mut payloads: Vec<Vec<usize>> = Vec::new();
    let mut index: usize = 0;
    while index < ids.len()
        invariant
            tree.wf(),
            facts.fits(*tree),
            indices_below(ids@, tree.nodes@.len() as int),
            index <= ids@.len(),
            payloads@.len() == index,
            holds_evidence(*tree, *facts, ids@, payloads@),
        decreases ids@.len() - index,
    {
        let id = ids[index];
        if facts.symbols[id].identity.is_some() {
            payloads.push(meaningful_payload_fingerprints(tree, facts, id));
        } else {
            payloads.push(Vec::new());
        }
        index += 1;
    }
    payloads
}

/// Each named candidate has its evidence.
spec fn holds_evidence(
    tree: SyntaxTree,
    facts: Facts,
    ids: Seq<NodeId>,
    payloads: Seq<Vec<usize>>,
) -> bool {
    forall|k: int|
        0 <= k < payloads.len() && facts.symbols@[ids[k] as int].identity is Some ==> (
        #[trigger] payloads[k])@ == evidence_of(tree, facts, ids[k] as int)
}

/// A recovered pair with its wrapper evidence.
#[derive(Clone, Copy)]
pub struct Recovered {
    pub before: NodeId,
    pub after: NodeId,
    pub placement: Placement,
    pub reparenting: Reparenting,
}

/// Two nodes may be the same context: equal kind and name, or equal kind and content.
pub open spec fn shares_key(scene: Scene<'_>, before: int, after: int) -> bool {
    &&& scene.before.symbols@[before].kind == scene.after.symbols@[after].kind
    &&& scene.before.symbols@[before].identity == scene.after.symbols@[after].identity
    &&& scene.before.symbols@[before].identity is None ==> scene.before.prints@[before].full
        == scene.after.prints@[after].full
}

/// Whether two nodes may be the same context: equal kind and name, or equal kind and content.
fn same_context_key(scene: &Scene<'_>, before: NodeId, after: NodeId) -> (same: bool)
    requires
        scene.wf(),
        before < scene.before_len(),
        after < scene.after_len(),
    ensures
        same == shares_key(*scene, before as int, after as int),
{
    if scene.before.symbols[before].kind != scene.after.symbols[after].kind {
        return false;
    }
    match (scene.before.symbols[before].identity, scene.after.symbols[after].identity) {
        (Some(left), Some(right)) => left == right,
        (None, None) => scene.before.prints[before].full == scene.after.prints[after].full,
        _ => false,
    }
}

/// The parents of two nodes are already partners.
pub open spec fn under_partners(
    scene: Scene<'_>,
    links: ContextLinks,
    before: int,
    after: int,
) -> bool {
    match (scene.pair.before.nodes@[before].parent, scene.pair.after.nodes@[after].parent) {
        (Some(left), Some(right)) => links.partners.before@[left as int] == Some(right),
        _ => false,
    }
}

/// Whether the parents of two nodes are already partners.
fn parents_paired(scene: &Scene<'_>, links: &ContextLinks, before: NodeId, after: NodeId) -> (paired:
    bool)
    requires
        scene.wf(),
        links.wf(scene.before_len(), scene.after_len()),
        before < scene.before_len(),
        after < scene.after_len(),
    ensures
        paired == under_partners(*scene, *links, before as int, after as int),
{
    assert(parent_holds(scene.pair.before.nodes@, before as int));
    match (scene.pair.before.nodes[before].parent, scene.pair.after.nodes[after].parent) {
        (Some(left), Some(right)) => match links.partners.before[left] {
            Some(partner) => partner == right,
            None => false,
        },
        _ => false,
    }
}

/// How well two nodes fit as one context carried through a wrapper; equal content fits best.
pub open spec fn recovery_score(
    scene: Scene<'_>,
    links: ContextLinks,
    before: int,
    after: int,
) -> nat {
    if !shares_key(scene, before, after) || under_partners(scene, links, before, after)
        || reparenting_of(
        *scene.pair,
        links.partners.before@,
        links.partners.after@,
        before,
        after,
    ) is None {
        0
    } else if scene.before.prints@[before].full == scene.after.prints@[after].full {
        u64::MAX as nat
    } else {
        shared_count(
            evidence_of(scene.pair.before, *scene.before, before),
            evidence_of(scene.pair.after, *scene.after, after).to_multiset(),
        )
    }
}

/// Two free nodes that fit each other better than either fits any other free node.
pub open spec fn is_confident(
    scene: Scene<'_>,
    links: ContextLinks,
    before_unit: int,
    after_unit: int,
    before: int,
    after: int,
) -> bool {
    &&& is_free(scene.pair.before, links.partners.before@, before_unit, before)
    &&& is_free(scene.pair.after, links.partners.after@, after_unit, after)
    &&& recovery_score(scene, links, before, after) > 0
    &&& forall|other: int| #[trigger]
        is_free(scene.pair.after, links.partners.after@, after_unit, other) && other != after
            ==> recovery_score(scene, links, before, other) < recovery_score(
            scene,
            links,
            before,
            after,
        )
    &&& forall|other: int| #[trigger]
        is_free(scene.pair.before, links.partners.before@, before_unit, other) && other != before
            ==> recovery_score(scene, links, other, after) < recovery_score(
            scene,
            links,
            before,
            after,
        )
}

/// Score candidates with equal keys by shared payload, equal content highest.
fn score_candidates(
    scene: &Scene<'_>,
    links: &ContextLinks,
    before: &Vec<NodeId>,
    after: &Vec<NodeId>,
    before_payloads: &Vec<Vec<usize>>,
    after_payloads: &Vec<Vec<usize>>,
) -> (scores: Vec<Scored>)
    requires
        scene.wf(),
        links.wf(scene.before_len(), scene.after_len()),
        indices_below(before@, scene.before_len()),
        indices_below(after@, scene.after_len()),
        before_payloads@.len() == before@.len(),
        after_payloads@.len() == after@.len(),
        holds_evidence(scene.pair.before, *scene.before, before@, before_payloads@),
        holds_evidence(scene.pair.after, *scene.after, after@, after_payloads@),
    ensures
        scores_fit(*scene, *links, before@, after@, scores@),
        scores_all(*scene, *links, before@, after@, before@.len() as int, 0, scores@),
{
    let mut scores: Vec<Scored> = Vec::new();
    let mut left: usize = 0;
    while left < before.len()
        invariant
            scene.wf(),
            links.wf(scene.before_len(), scene.after_len()),
            indices_below(before@, scene.before_len()),
            indices_below(after@, scene.after_len()),
            before_payloads@.len() == before@.len(),
            after_payloads@.len() == after@.len(),
            holds_evidence(scene.pair.before, *scene.before, before@, before_payloads@),
            holds_evidence(scene.pair.after, *scene.after, after@, after_payloads@),
            left <= before@.len(),
            scores_fit(*scene, *links, before@, after@, scores@),
            scores_all(*scene, *links, before@, after@, left as int, 0, scores@),
            scored_before(scores@, left as int, 0),
        decreases before@.len() - left,
    {
        let mut right: usize = 0;
        while right < after.len()
            invariant
                scene.wf(),
                links.wf(scene.before_len(), scene.after_len()),
                indices_below(before@, scene.before_len()),
                indices_below(after@, scene.after_len()),
                before_payloads@.len() == before@.len(),
                after_payloads@.len() == after@.len(),
                holds_evidence(scene.pair.before, *scene.before, before@, before_payloads@),
                holds_evidence(scene.pair.after, *scene.after, after@, after_payloads@),
                left < before@.len(),
                right <= after@.len(),
                scores_fit(*scene, *links, before@, after@, scores@),
                scores_all(*scene, *links, before@, after@, left as int, right as int, scores@),
                scored_before(scores@, left as int, right as int),
            decreases after@.len() - right,
        {
            let before_id = before[left];
            let after_id = after[right];
            let ghost earlier = scores@;
            let ghost expected = recovery_score(*scene, *links, before_id as int, after_id as int);
            if same_context_key(scene, before_id, after_id) && !parents_paired(
                scene,
                links,
                before_id,
                after_id,
            ) && unique_containment_reparenting(
                scene.pair,
                &links.partners.before,
                &links.partners.after,
                before_id,
                after_id,
            ).is_some() {
                let score = if scene.before.prints[before_id].full
                    == scene.after.prints[after_id].full {
                    u64::MAX
                } else {
                    proof {
                        assert(before_payloads@[left as int]@ == evidence_of(
                            scene.pair.before,
                            *scene.before,
                            before_id as int,
                        ));
                        assert(after_payloads@[right as int]@ == evidence_of(
                            scene.pair.after,
                            *scene.after,
                            after_id as int,
                        ));
                    }
                    shared_fingerprint_count(&before_payloads[left], &after_payloads[right])
                };
                assert(score == expected);
                scores.push(Scored { before: left, after: right, score });
                assert(scores@.drop_last() =~= earlier);
            } else {
                assert(expected == 0);
            }
            proof {
                lemma_one_more_score(
                    *scene,
                    *links,
                    before@,
                    after@,
                    left as int,
                    right as int,
                    earlier,
                    scores@,
                );
            }
            right += 1;
        }
        proof {
            lemma_row_scored(
                *scene,
                *links,
                before@,
                after@,
                left as int,
                scores@,
            );
        }
        left += 1;
    }
    scores
}

/// Scores of listed candidates, each pair once.
spec fn scores_fit(
    scene: Scene<'_>,
    links: ContextLinks,
    before: Seq<NodeId>,
    after: Seq<NodeId>,
    scores: Seq<Scored>,
) -> bool {
    &&& forall|k: int|
        0 <= k < scores.len() ==> (#[trigger] scores[k]).before < before.len() && scores[k].after
            < after.len() && scores[k].score == recovery_score(
            scene,
            links,
            before[scores[k].before as int] as int,
            after[scores[k].after as int] as int,
        )
    &&& forall|k: int, l: int|
        0 <= k < scores.len() && 0 <= l < scores.len() && k != l ==> (#[trigger] scores[k]).before
            != (#[trigger] scores[l]).before || scores[k].after != scores[l].after
}

/// A pair of list positions has a score.
spec fn has_score(scores: Seq<Scored>, left: int, right: int) -> bool {
    exists|k: int|
        0 <= k < scores.len() && (#[trigger] scores[k]).before == left && scores[k].after == right
}

/// Position pairs in row order before `(left, right)`.
spec fn comes_before(i: int, j: int, left: int, right: int) -> bool {
    i < left || i == left && j < right
}

/// Every pair before a position that fits at all has a score.
spec fn scores_all(
    scene: Scene<'_>,
    links: ContextLinks,
    before: Seq<NodeId>,
    after: Seq<NodeId>,
    left: int,
    right: int,
    scores: Seq<Scored>,
) -> bool {
    forall|i: int, j: int|
        0 <= i < before.len() && 0 <= j < after.len() && comes_before(i, j, left, right)
            && #[trigger] recovery_score(scene, links, before[i] as int, after[j] as int) > 0
            ==> has_score(scores, i, j)
}

/// Only pairs before a position have scores.
spec fn scored_before(scores: Seq<Scored>, left: int, right: int) -> bool {
    forall|k: int|
        0 <= k < scores.len() ==> comes_before(
            (#[trigger] scores[k]).before as int,
            scores[k].after as int,
            left,
            right,
        )
}

/// Scoring one more pair, or leaving out one that does not fit.
proof fn lemma_one_more_score(
    scene: Scene<'_>,
    links: ContextLinks,
    before: Seq<NodeId>,
    after: Seq<NodeId>,
    left: int,
    right: int,
    earlier: Seq<Scored>,
    scores: Seq<Scored>,
)
    requires
        0 <= left < before.len(),
        0 <= right < after.len(),
        scores_fit(scene, links, before, after, earlier),
        scores_all(scene, links, before, after, left, right, earlier),
        scored_before(earlier, left, right),
        ({
            let score = recovery_score(scene, links, before[left] as int, after[right] as int);
            ||| scores == earlier && score == 0
            ||| scores.len() == earlier.len() + 1 && scores.drop_last() == earlier
                && scores.last().before == left && scores.last().after == right
                && scores.last().score == score
        }),
    ensures
        scores_fit(scene, links, before, after, scores),
        scores_all(scene, links, before, after, left, right + 1, scores),
        scored_before(scores, left, right + 1),
{
    assert forall|k: int| 0 <= k < earlier.len() implies scores[k] == #[trigger] earlier[k] by {
        if scores.len() > earlier.len() {
            assert(scores.drop_last()[k] == scores[k]);
        }
    }
    assert forall|k: int| 0 <= k < scores.len() implies comes_before(
        (#[trigger] scores[k]).before as int,
        scores[k].after as int,
        left,
        right + 1,
    ) by {
        if k < earlier.len() {
            assert(scores[k] == earlier[k]);
            assert(comes_before(earlier[k].before as int, earlier[k].after as int, left, right));
        }
    }
    assert forall|i: int, j: int|
        0 <= i < before.len() && 0 <= j < after.len() && comes_before(i, j, left, right + 1)
            && #[trigger] recovery_score(
            scene,
            links,
            before[i] as int,
            after[j] as int,
        ) > 0 implies has_score(scores, i, j) by {
        if comes_before(i, j, left, right) {
            assert(has_score(earlier, i, j));
            let k = choose|k: int|
                0 <= k < earlier.len() && (#[trigger] earlier[k]).before == i && earlier[k].after
                    == j;
            assert(scores[k] == earlier[k]);
        } else {
            assert(scores[earlier.len() as int] == scores.last());
        }
    }
    assert forall|k: int| 0 <= k < scores.len() implies (#[trigger] scores[k]).before
        < before.len() && scores[k].after < after.len() && scores[k].score == recovery_score(
        scene,
        links,
        before[scores[k].before as int] as int,
        after[scores[k].after as int] as int,
    ) by {
        if k < earlier.len() {
            assert(scores[k] == earlier[k]);
        }
    }
    assert forall|k: int, l: int|
        0 <= k < scores.len() && 0 <= l < scores.len() && k != l implies (
    #[trigger] scores[k]).before != (#[trigger] scores[l]).before || scores[k].after
        != scores[l].after by {
        if k < earlier.len() {
            assert(scores[k] == earlier[k]);
            assert(comes_before(earlier[k].before as int, earlier[k].after as int, left, right));
        }
        if l < earlier.len() {
            assert(scores[l] == earlier[l]);
            assert(comes_before(earlier[l].before as int, earlier[l].after as int, left, right));
        }
    }
}

/// A finished row leads to the next one.
proof fn lemma_row_scored(
    scene: Scene<'_>,
    links: ContextLinks,
    before: Seq<NodeId>,
    after: Seq<NodeId>,
    left: int,
    scores: Seq<Scored>,
)
    requires
        scores_fit(scene, links, before, after, scores),
        scores_all(scene, links, before, after, left, after.len() as int, scores),
        scored_before(scores, left, after.len() as int),
    ensures
        scores_all(scene, links, before, after, left + 1, 0, scores),
        scored_before(scores, left + 1, 0),
{
    assert forall|k: int| 0 <= k < scores.len() implies comes_before(
        (#[trigger] scores[k]).before as int,
        scores[k].after as int,
        left + 1,
        0,
    ) by {
        assert(comes_before(
            scores[k].before as int,
            scores[k].after as int,
            left,
            after.len() as int,
        ));
    }
    assert forall|i: int, j: int|
        0 <= i < before.len() && 0 <= j < after.len() && comes_before(i, j, left + 1, 0)
            && #[trigger] recovery_score(
            scene,
            links,
            before[i] as int,
            after[j] as int,
        ) > 0 implies has_score(scores, i, j) by {
        assert(comes_before(i, j, left, after.len() as int));
    }
}

/// Recovered nodes as a matching.
pub open spec fn recovered_edges(recovered: Seq<Recovered>) -> Seq<OrderedMatch> {
    recovered.map_values(|found: Recovered| OrderedMatch { before: found.before, after: found.after })
}

/// An earlier or equal edge holds the pair in one revision.
pub open spec fn is_enclosed(
    scene: Scene<'_>,
    edges: Seq<OrderedMatch>,
    before: int,
    after: int,
) -> bool {
    exists|k: int|
        0 <= k < edges.len() && (#[trigger] edges[k]).before <= before && (
        scene.pair.before.in_subtree(edges[k].before as int, before)
            || scene.pair.after.in_subtree(edges[k].after as int, after))
}

/// The edges are the confident pairs that no earlier edge holds, in before order.
pub open spec fn recovers(
    scene: Scene<'_>,
    links: ContextLinks,
    before_unit: int,
    after_unit: int,
    edges: Seq<OrderedMatch>,
) -> bool {
    &&& forall|k: int|
        0 <= k < edges.len() ==> is_confident(
            scene,
            links,
            before_unit,
            after_unit,
            (#[trigger] edges[k]).before as int,
            edges[k].after as int,
        )
    &&& forall|before: int, after: int| #[trigger]
        is_confident(scene, links, before_unit, after_unit, before, after) ==> is_enclosed(
            scene,
            edges,
            before,
            after,
        )
    &&& outermost(scene, edges)
}

/// The edges ascend, and none lies inside an earlier one in either revision.
pub open spec fn outermost(scene: Scene<'_>, edges: Seq<OrderedMatch>) -> bool {
    forall|k: int, l: int|
        0 <= k < l < edges.len() ==> (#[trigger] edges[k]).before < (#[trigger] edges[l]).before
            && !scene.pair.before.in_subtree(edges[k].before as int, edges[l].before as int)
            && !scene.pair.after.in_subtree(edges[k].after as int, edges[l].after as int)
}

/// Recovered pairs with their wrapper evidence and their placement among each other.
pub open spec fn recovery_ok(
    scene: Scene<'_>,
    links: ContextLinks,
    before_unit: int,
    after_unit: int,
    recovered: Seq<Recovered>,
) -> bool {
    &&& recovers(scene, links, before_unit, after_unit, recovered_edges(recovered))
    &&& forall|k: int|
        0 <= k < recovered.len() ==> reparenting_of(
            *scene.pair,
            links.partners.before@,
            links.partners.after@,
            (#[trigger] recovered[k]).before as int,
            recovered[k].after as int,
        ) == Some(recovered[k].reparenting)
    &&& places_longest(
        recovered_edges(recovered),
        recovered.map_values(|found: Recovered| found.placement),
    )
}

/// The edges are all confident pairs, in before order.
spec fn lists_confident(
    scene: Scene<'_>,
    links: ContextLinks,
    before_unit: int,
    after_unit: int,
    edges: Seq<OrderedMatch>,
) -> bool {
    &&& forall|k: int|
        0 <= k < edges.len() ==> (#[trigger] edges[k]).before < scene.before_len()
            && edges[k].after < scene.after_len() && is_confident(
            scene,
            links,
            before_unit,
            after_unit,
            edges[k].before as int,
            edges[k].after as int,
        )
    &&& forall|before: int, after: int| #[trigger]
        is_confident(scene, links, before_unit, after_unit, before, after) ==> edges.contains(
            OrderedMatch { before: before as usize, after: after as usize },
        )
    &&& forall|k: int, l: int|
        0 <= k < l < edges.len() ==> (#[trigger] edges[k]).before < (#[trigger] edges[l]).before
}

/// All confident pairs of two units, in before order.
fn confident_pairs(
    scene: &Scene<'_>,
    links: &ContextLinks,
    before_unit: NodeId,
    after_unit: NodeId,
) -> (edges: Vec<OrderedMatch>)
    requires
        scene.wf(),
        links.wf(scene.before_len(), scene.after_len()),
        before_unit < scene.before_len(),
        after_unit < scene.after_len(),
    ensures
        lists_confident(*scene, *links, before_unit as int, after_unit as int, edges@),
{
    let before = free_composites(&scene.pair.before, &links.partners.before, before_unit);
    let after = free_composites(&scene.pair.after, &links.partners.after, after_unit);
    let before_payloads = candidate_payloads(&scene.pair.before, scene.before, &before);
    let after_payloads = candidate_payloads(&scene.pair.after, scene.after, &after);
    let scores = score_candidates(
        scene,
        links,
        &before,
        &after,
        &before_payloads,
        &after_payloads,
    );
    let candidates = reciprocal_unique_matches(&scores, before.len(), after.len(), 0);
    let mut edges: Vec<OrderedMatch> = Vec::new();
    let mut index: usize = 0;
    while index < candidates.len()
        invariant
            index <= candidates@.len(),
            edges@.len() == index,
            forall|e: int|
                0 <= e < candidates@.len() ==> (#[trigger] candidates@[e]).before < before@.len()
                    && candidates@[e].after < after@.len(),
            forall|e: int|
                0 <= e < index ==> (#[trigger] edges@[e]) == (OrderedMatch {
                    before: before@[candidates@[e].before as int],
                    after: after@[candidates@[e].after as int],
                }),
        decreases candidates@.len() - index,
    {
        let candidate = candidates[index];
        assert(candidates@[index as int] == candidate);
        edges.push(OrderedMatch { before: before[candidate.before], after: after[candidate.after] });
        index += 1;
    }
    proof {
        lemma_confident_listed(
            *scene,
            *links,
            before_unit as int,
            after_unit as int,
            before@,
            after@,
            scores@,
            candidates@,
            edges@,
        );
    }
    edges
}

/// Mutual preferences among the scores are the confident pairs.
#[verifier::rlimit(40)]
proof fn lemma_confident_listed(
    scene: Scene<'_>,
    links: ContextLinks,
    before_unit: int,
    after_unit: int,
    before: Seq<NodeId>,
    after: Seq<NodeId>,
    scores: Seq<Scored>,
    candidates: Seq<OrderedMatch>,
    edges: Seq<OrderedMatch>,
)
    requires
        0 <= before_unit,
        0 <= after_unit,
        indices_below(before, scene.before_len()),
        indices_below(after, scene.after_len()),
        lists_free(
            scene.pair.before,
            links.partners.before@,
            before_unit,
            scene.pair.before.nodes@[before_unit].subtree_end as int,
            before,
        ),
        lists_free(
            scene.pair.after,
            links.partners.after@,
            after_unit,
            scene.pair.after.nodes@[after_unit].subtree_end as int,
            after,
        ),
        scores_fit(scene, links, before, after, scores),
        scores_all(scene, links, before, after, before.len() as int, 0, scores),
        forall|e: int|
            0 <= e < candidates.len() ==> is_reciprocal(scores, 0, #[trigger] candidates[e]),
        forall|k: int|
            0 <= k < scores.len() && #[trigger] reciprocal(scores, 0, k) ==> candidates.contains(
                OrderedMatch { before: scores[k].before, after: scores[k].after },
            ),
        forall|d: int, e: int|
            0 <= d < e < candidates.len() ==> (#[trigger] candidates[d]).before < (
            #[trigger] candidates[e]).before,
        edges.len() == candidates.len(),
        forall|e: int|
            0 <= e < edges.len() ==> (#[trigger] edges[e]) == (OrderedMatch {
                before: before[candidates[e].before as int],
                after: after[candidates[e].after as int],
            }),
    ensures
        lists_confident(scene, links, before_unit, after_unit, edges),
{
    assert forall|e: int| 0 <= e < edges.len() implies (#[trigger] edges[e]).before
        < scene.before_len() && edges[e].after < scene.after_len() && is_confident(
        scene,
        links,
        before_unit,
        after_unit,
        edges[e].before as int,
        edges[e].after as int,
    ) by {
        assert(is_reciprocal(scores, 0, candidates[e]));
        let k = choose|k: int|
            0 <= k < scores.len() && #[trigger] reciprocal(scores, 0, k) && scores[k].before
                == candidates[e].before && scores[k].after == candidates[e].after;
        lemma_reciprocal_is_confident(
            scene,
            links,
            before_unit,
            after_unit,
            before,
            after,
            scores,
            k,
        );
    }
    assert forall|left: int, right: int| #[trigger]
        is_confident(scene, links, before_unit, after_unit, left, right) implies edges.contains(
        OrderedMatch { before: left as usize, after: right as usize },
    ) by {
        assert(before.contains(left as usize));
        assert(after.contains(right as usize));
        let i = choose|i: int| 0 <= i < before.len() && before[i] == left as usize;
        let j = choose|j: int| 0 <= j < after.len() && after[j] == right as usize;
        assert(scene.pair.before.nodes.len() <= usize::MAX);
        assert(scene.pair.after.nodes.len() <= usize::MAX);
        assert(before[i] < scene.before_len());
        lemma_confident_is_reciprocal(
            scene,
            links,
            before_unit,
            after_unit,
            before,
            after,
            scores,
            i,
            j,
        );
        let k = choose|k: int|
            0 <= k < scores.len() && #[trigger] reciprocal(scores, 0, k) && scores[k].before == i
                && scores[k].after == j;
        let edge = OrderedMatch { before: scores[k].before, after: scores[k].after };
        assert(candidates.contains(edge));
        let e = choose|e: int| 0 <= e < candidates.len() && candidates[e] == edge;
        assert(edges[e] == (OrderedMatch { before: left as usize, after: right as usize }));
    }
    assert forall|d: int, e: int| 0 <= d < e < edges.len() implies (#[trigger] edges[d]).before < (
    #[trigger] edges[e]).before by {
        assert(candidates[d].before < candidates[e].before);
        assert(is_reciprocal(scores, 0, candidates[e]));
    }
}

/// A pair of mutual preference is confident.
proof fn lemma_reciprocal_is_confident(
    scene: Scene<'_>,
    links: ContextLinks,
    before_unit: int,
    after_unit: int,
    before: Seq<NodeId>,
    after: Seq<NodeId>,
    scores: Seq<Scored>,
    k: int,
)
    requires
        0 <= before_unit,
        0 <= after_unit,
        lists_free(
            scene.pair.before,
            links.partners.before@,
            before_unit,
            scene.pair.before.nodes@[before_unit].subtree_end as int,
            before,
        ),
        lists_free(
            scene.pair.after,
            links.partners.after@,
            after_unit,
            scene.pair.after.nodes@[after_unit].subtree_end as int,
            after,
        ),
        scores_fit(scene, links, before, after, scores),
        scores_all(scene, links, before, after, before.len() as int, 0, scores),
        0 <= k < scores.len(),
        reciprocal(scores, 0, k),
    ensures
        is_confident(
            scene,
            links,
            before_unit,
            after_unit,
            before[scores[k].before as int] as int,
            after[scores[k].after as int] as int,
        ),
{
    let i = scores[k].before as int;
    let j = scores[k].after as int;
    let left = before[i] as int;
    let right = after[j] as int;
    let best = recovery_score(scene, links, left, right);
    assert(scores[k].score == best);
    assert forall|other: int| #[trigger]
        is_free(scene.pair.after, links.partners.after@, after_unit, other) && other
            != right implies recovery_score(scene, links, left, other) < best by {
        assert(after.contains(other as usize));
        let n = choose|n: int| 0 <= n < after.len() && after[n] == other as usize;
        assert(after[n] as int == other);
        if recovery_score(scene, links, before[i] as int, after[n] as int) > 0 {
            assert(comes_before(i, n, before.len() as int, 0));
            assert(has_score(scores, i, n));
            let l = choose|l: int|
                0 <= l < scores.len() && (#[trigger] scores[l]).before == i && scores[l].after == n;
            assert(l != k);
            assert(scores[l].end(true) == scores[k].end(true));
        }
    }
    assert forall|other: int| #[trigger]
        is_free(scene.pair.before, links.partners.before@, before_unit, other) && other
            != left implies recovery_score(scene, links, other, right) < best by {
        assert(before.contains(other as usize));
        let n = choose|n: int| 0 <= n < before.len() && before[n] == other as usize;
        assert(before[n] as int == other);
        if recovery_score(scene, links, before[n] as int, after[j] as int) > 0 {
            assert(comes_before(n, j, before.len() as int, 0));
            assert(has_score(scores, n, j));
            let l = choose|l: int|
                0 <= l < scores.len() && (#[trigger] scores[l]).before == n && scores[l].after == j;
            assert(l != k);
            assert(scores[l].end(false) == scores[k].end(false));
        }
    }
}

/// A confident pair is one of mutual preference.
proof fn lemma_confident_is_reciprocal(
    scene: Scene<'_>,
    links: ContextLinks,
    before_unit: int,
    after_unit: int,
    before: Seq<NodeId>,
    after: Seq<NodeId>,
    scores: Seq<Scored>,
    i: int,
    j: int,
)
    requires
        0 <= before_unit,
        0 <= after_unit,
        0 <= i < before.len(),
        0 <= j < after.len(),
        lists_free(
            scene.pair.before,
            links.partners.before@,
            before_unit,
            scene.pair.before.nodes@[before_unit].subtree_end as int,
            before,
        ),
        lists_free(
            scene.pair.after,
            links.partners.after@,
            after_unit,
            scene.pair.after.nodes@[after_unit].subtree_end as int,
            after,
        ),
        scores_fit(scene, links, before, after, scores),
        scores_all(scene, links, before, after, before.len() as int, 0, scores),
        is_confident(scene, links, before_unit, after_unit, before[i] as int, after[j] as int),
    ensures
        exists|k: int|
            0 <= k < scores.len() && #[trigger] reciprocal(scores, 0, k) && scores[k].before == i
                && scores[k].after == j,
{
    assert(comes_before(i, j, before.len() as int, 0));
    assert(recovery_score(scene, links, before[i] as int, after[j] as int) > 0);
    assert(has_score(scores, i, j));
    let k = choose|k: int|
        0 <= k < scores.len() && (#[trigger] scores[k]).before == i && scores[k].after == j;
    assert(leads(scores, true, k)) by {
        assert forall|l: int|
            0 <= l < scores.len() && l != k && (#[trigger] scores[l]).end(true) == scores[k].end(
                true,
            ) implies scores[l].score < scores[k].score by {
            assert(scores[l].after != scores[k].after);
            let other = after[scores[l].after as int];
            assert(other != after[j]);
            assert(is_free(scene.pair.after, links.partners.after@, after_unit, other as int));
        }
    }
    assert(leads(scores, false, k)) by {
        assert forall|l: int|
            0 <= l < scores.len() && l != k && (#[trigger] scores[l]).end(false) == scores[k].end(
                false,
            ) implies scores[l].score < scores[k].score by {
            assert(scores[l].before != scores[k].before);
            let other = before[scores[l].before as int];
            assert(other != before[i]);
            assert(is_free(scene.pair.before, links.partners.before@, before_unit, other as int));
        }
    }
    assert(reciprocal(scores, 0, k));
}

/// Keep the edges that no earlier kept edge holds.
fn outermost_edges(scene: &Scene<'_>, candidates: &Vec<OrderedMatch>) -> (roots: Vec<OrderedMatch>)
    requires
        scene.wf(),
        forall|k: int|
            0 <= k < candidates@.len() ==> (#[trigger] candidates@[k]).before < scene.before_len()
                && candidates@[k].after < scene.after_len(),
        forall|k: int, l: int|
            0 <= k < l < candidates@.len() ==> (#[trigger] candidates@[k]).before < (
            #[trigger] candidates@[l]).before,
    ensures
        outermost(*scene, roots@),
        forall|r: int| 0 <= r < roots@.len() ==> candidates@.contains(#[trigger] roots@[r]),
        forall|k: int|
            0 <= k < candidates@.len() ==> is_enclosed(
                *scene,
                roots@,
                (#[trigger] candidates@[k]).before as int,
                candidates@[k].after as int,
            ),
{
    let mut roots: Vec<OrderedMatch> = Vec::new();
    let mut index: usize = 0;
    while index < candidates.len()
        invariant
            scene.wf(),
            index <= candidates@.len(),
            forall|k: int|
                0 <= k < candidates@.len() ==> (#[trigger] candidates@[k]).before
                    < scene.before_len() && candidates@[k].after < scene.after_len(),
            forall|k: int, l: int|
                0 <= k < l < candidates@.len() ==> (#[trigger] candidates@[k]).before < (
                #[trigger] candidates@[l]).before,
            outermost(*scene, roots@),
            forall|r: int|
                0 <= r < roots@.len() ==> candidates@.take(index as int).contains(
                    #[trigger] roots@[r],
                ),
            forall|r: int|
                0 <= r < roots@.len() ==> (#[trigger] roots@[r]).before < scene.before_len()
                    && roots@[r].after < scene.after_len(),
            forall|k: int|
                0 <= k < index ==> is_enclosed(
                    *scene,
                    roots@,
                    (#[trigger] candidates@[k]).before as int,
                    candidates@[k].after as int,
                ),
        decreases candidates@.len() - index,
    {
        let candidate = candidates[index];
        assert(candidates@[index as int] == candidate);
        let mut nested: bool = false;
        let mut other: usize = 0;
        while other < roots.len()
            invariant
                scene.wf(),
                other <= roots@.len(),
                candidate.before < scene.before_len(),
                candidate.after < scene.after_len(),
                forall|r: int|
                    0 <= r < roots@.len() ==> (#[trigger] roots@[r]).before < scene.before_len()
                        && roots@[r].after < scene.after_len(),
                nested == exists|r: int| 0 <= r < other && holds(*scene, #[trigger] roots@[r], candidate),
            decreases roots@.len() - other,
        {
            let root = roots[other];
            assert(roots@[other as int] == root);
            if scene.pair.before.contains(root.before, candidate.before)
                || scene.pair.after.contains(root.after, candidate.after) {
                nested = true;
                assert(holds(*scene, roots@[other as int], candidate));
            }
            other += 1;
        }
        let ghost earlier = roots@;
        if !nested {
            roots.push(candidate);
        }
        proof {
            lemma_root_kept(*scene, candidates@, index as int, earlier, roots@);
        }
        index += 1;
    }
    proof {
        assert(candidates@.take(candidates@.len() as int) =~= candidates@);
    }
    roots
}

/// One edge holds another in either revision.
spec fn holds(scene: Scene<'_>, outer: OrderedMatch, inner: OrderedMatch) -> bool {
    scene.pair.before.in_subtree(outer.before as int, inner.before as int)
        || scene.pair.after.in_subtree(outer.after as int, inner.after as int)
}

/// Keeping one more candidate, or leaving out one that a kept edge holds.
proof fn lemma_root_kept(
    scene: Scene<'_>,
    candidates: Seq<OrderedMatch>,
    index: int,
    earlier: Seq<OrderedMatch>,
    roots: Seq<OrderedMatch>,
)
    requires
        scene.wf(),
        0 <= index < candidates.len(),
        candidates[index].before < scene.before_len(),
        forall|k: int, l: int|
            0 <= k < l < candidates.len() ==> (#[trigger] candidates[k]).before < (
            #[trigger] candidates[l]).before,
        outermost(scene, earlier),
        forall|r: int|
            0 <= r < earlier.len() ==> candidates.take(index).contains(#[trigger] earlier[r]),
        forall|k: int|
            0 <= k < index ==> is_enclosed(
                scene,
                earlier,
                (#[trigger] candidates[k]).before as int,
                candidates[k].after as int,
            ),
        ({
            let nested = exists|r: int|
                0 <= r < earlier.len() && holds(scene, #[trigger] earlier[r], candidates[index]);
            if nested {
                roots == earlier
            } else {
                roots == earlier.push(candidates[index])
            }
        }),
    ensures
        outermost(scene, roots),
        forall|r: int|
            0 <= r < roots.len() ==> candidates.take(index + 1).contains(#[trigger] roots[r]),
        forall|k: int|
            0 <= k < index + 1 ==> is_enclosed(
                scene,
                roots,
                (#[trigger] candidates[k]).before as int,
                candidates[k].after as int,
            ),
{
    let candidate = candidates[index];
    assert forall|r: int| 0 <= r < earlier.len() implies (#[trigger] earlier[r]).before
        < candidate.before && roots[r] == earlier[r] by {
        let taken = candidates.take(index);
        assert(taken.contains(earlier[r]));
        let m = choose|m: int| 0 <= m < taken.len() && taken[m] == earlier[r];
        assert(candidates[m] == earlier[r]);
        assert(candidates[m].before < candidates[index].before);
    }
    assert forall|r: int| 0 <= r < roots.len() implies candidates.take(index + 1).contains(
        #[trigger] roots[r],
    ) by {
        let taken = candidates.take(index);
        if r < earlier.len() {
            assert(taken.contains(earlier[r]));
            let m = choose|m: int| 0 <= m < taken.len() && taken[m] == earlier[r];
            assert(candidates.take(index + 1)[m] == roots[r]);
        } else {
            assert(candidates.take(index + 1)[index] == roots[r]);
        }
    }
    assert forall|k: int| 0 <= k < index + 1 implies is_enclosed(
        scene,
        roots,
        (#[trigger] candidates[k]).before as int,
        candidates[k].after as int,
    ) by {
        if k < index {
            assert(is_enclosed(
                scene,
                earlier,
                candidates[k].before as int,
                candidates[k].after as int,
            ));
            let r = choose|r: int|
                0 <= r < earlier.len() && (#[trigger] earlier[r]).before <= candidates[k].before
                    && (scene.pair.before.in_subtree(
                    earlier[r].before as int,
                    candidates[k].before as int,
                ) || scene.pair.after.in_subtree(
                    earlier[r].after as int,
                    candidates[k].after as int,
                ));
            assert(roots[r] == earlier[r]);
        } else if exists|r: int|
            0 <= r < earlier.len() && holds(scene, #[trigger] earlier[r], candidate) {
            let r = choose|r: int|
                0 <= r < earlier.len() && holds(scene, #[trigger] earlier[r], candidate);
            assert(roots[r] == earlier[r]);
        } else {
            assert(roots[earlier.len() as int] == candidate);
            assert(node_fits(
                scene.pair.before.nodes@[candidate.before as int],
                candidate.before as int,
                scene.before_len(),
                scene.pair.before.source.data().len() as int,
            ));
        }
    }
    assert forall|k: int, l: int| 0 <= k < l < roots.len() implies (#[trigger] roots[k]).before < (
    #[trigger] roots[l]).before && !scene.pair.before.in_subtree(
        roots[k].before as int,
        roots[l].before as int,
    ) && !scene.pair.after.in_subtree(roots[k].after as int, roots[l].after as int) by {
        assert(roots[k] == earlier[k]);
        if l < earlier.len() {
            assert(roots[l] == earlier[l]);
        } else {
            assert(!holds(scene, earlier[k], candidate));
        }
    }
}

/// Recover subtrees carried through a unique wrapper path.
/// Anonymous nodes need exact content; nodes with unchanged names may also use shared payload.
/// Outermost matches win so descendants are paired inside their recovered context.
fn confident_reparented_context_matches(
    scene: &Scene<'_>,
    links: &ContextLinks,
    before_unit: NodeId,
    after_unit: NodeId,
) -> (recovered: Vec<Recovered>)
    requires
        scene.wf(),
        links.wf(scene.before_len(), scene.after_len()),
        before_unit < scene.before_len(),
        after_unit < scene.after_len(),
    ensures
        recovery_ok(*scene, *links, before_unit as int, after_unit as int, recovered@),
        forall|k: int|
            0 <= k < recovered@.len() ==> (#[trigger] recovered@[k]).before < scene.before_len()
                && recovered@[k].after < scene.after_len(),
{
    let candidates = confident_pairs(scene, links, before_unit, after_unit);
    let roots = outermost_edges(scene, &candidates);
    proof {
        lemma_roots_recover(
            *scene,
            *links,
            before_unit as int,
            after_unit as int,
            candidates@,
            roots@,
        );
    }
    let placements = match_placements(&roots);
    let mut recovered: Vec<Recovered> = Vec::new();
    let mut position: usize = 0;
    while position < roots.len()
        invariant
            scene.wf(),
            links.wf(scene.before_len(), scene.after_len()),
            position <= roots@.len(),
            placements@.len() == roots@.len(),
            forall|r: int|
                0 <= r < roots@.len() ==> (#[trigger] roots@[r]).before < scene.before_len()
                    && roots@[r].after < scene.after_len(),
            recovers(*scene, *links, before_unit as int, after_unit as int, roots@),
            recovered@.len() == position,
            forall|k: int|
                0 <= k < position ==> (#[trigger] recovered@[k]).before == roots@[k].before
                    && recovered@[k].after == roots@[k].after && recovered@[k].placement
                    == placements@[k] && reparenting_of(
                    *scene.pair,
                    links.partners.before@,
                    links.partners.after@,
                    recovered@[k].before as int,
                    recovered@[k].after as int,
                ) == Some(recovered@[k].reparenting),
        decreases roots@.len() - position,
    {
        let edge = roots[position];
        assert(roots@[position as int] == edge);
        assert(is_confident(
            *scene,
            *links,
            before_unit as int,
            after_unit as int,
            edge.before as int,
            edge.after as int,
        ));
        let reparenting = unique_containment_reparenting(
            scene.pair,
            &links.partners.before,
            &links.partners.after,
            edge.before,
            edge.after,
        );
        if let Some(reparenting) = reparenting {
            recovered.push(
                Recovered {
                    before: edge.before,
                    after: edge.after,
                    placement: placements[position],
                    reparenting,
                },
            );
        }
        position += 1;
    }
    proof {
        assert(recovered_edges(recovered@) =~= roots@);
        assert(recovered@.map_values(|found: Recovered| found.placement) =~= placements@);
        assert forall|k: int| 0 <= k < recovered@.len() implies (#[trigger] recovered@[k]).before
            < scene.before_len() && recovered@[k].after < scene.after_len() by {
            assert(roots@[k].before < scene.before_len());
        }
    }
    recovered
}

/// The outermost of all confident pairs are the recovered ones.
proof fn lemma_roots_recover(
    scene: Scene<'_>,
    links: ContextLinks,
    before_unit: int,
    after_unit: int,
    candidates: Seq<OrderedMatch>,
    roots: Seq<OrderedMatch>,
)
    requires
        0 <= before_unit,
        0 <= after_unit,
        scene.wf(),
        lists_confident(scene, links, before_unit, after_unit, candidates),
        outermost(scene, roots),
        forall|r: int| 0 <= r < roots.len() ==> candidates.contains(#[trigger] roots[r]),
        forall|k: int|
            0 <= k < candidates.len() ==> is_enclosed(
                scene,
                roots,
                (#[trigger] candidates[k]).before as int,
                candidates[k].after as int,
            ),
    ensures
        recovers(scene, links, before_unit, after_unit, roots),
        forall|r: int|
            0 <= r < roots.len() ==> (#[trigger] roots[r]).before < scene.before_len()
                && roots[r].after < scene.after_len(),
{
    assert forall|r: int| 0 <= r < roots.len() implies (#[trigger] roots[r]).before
        < scene.before_len() && roots[r].after < scene.after_len() && is_confident(
        scene,
        links,
        before_unit,
        after_unit,
        roots[r].before as int,
        roots[r].after as int,
    ) by {
        assert(candidates.contains(roots[r]));
        let m = choose|m: int| 0 <= m < candidates.len() && candidates[m] == roots[r];
        assert(candidates[m].before < scene.before_len());
    }
    assert forall|before: int, after: int| #[trigger]
        is_confident(scene, links, before_unit, after_unit, before, after) implies is_enclosed(
        scene,
        roots,
        before,
        after,
    ) by {
        let edge = OrderedMatch { before: before as usize, after: after as usize };
        assert(candidates.contains(edge));
        let m = choose|m: int| 0 <= m < candidates.len() && candidates[m] == edge;
        assert(is_enclosed(
            scene,
            roots,
            candidates[m].before as int,
            candidates[m].after as int,
        ));
        assert(edge.before as int == before && edge.after as int == after) by {
            assert(is_free(scene.pair.before, links.partners.before@, before_unit, before));
            assert(is_free(scene.pair.after, links.partners.after@, after_unit, after));
        }
    }
}

/// Contexts being paired, with the pairs whose children still wait.
struct Growth {
    links: ContextLinks,
    pending: Vec<(NodeId, NodeId)>,
    /// Pairs that can still be added; every pair takes one before node.
    budget: usize,
}

impl Growth {
    spec fn wf(self, before_len: int, after_len: int) -> bool {
        &&& self.links.wf(before_len, after_len)
        &&& forall|k: int|
            0 <= k < self.pending@.len() ==> (#[trigger] self.pending@[k]).0 < before_len
                && self.pending@[k].1 < after_len
    }

    /// Every linked pair was queued, and there is room for all pairs that may come.
    spec fn has_room(self, before_len: int) -> bool {
        &&& self.budget + linked_count(self.links.partners.before@) >= before_len
        &&& forall|i: int|
            0 <= i < self.links.partners.before@.len() ==> ((
            #[trigger] self.links.partners.before@[i]) matches Some(j)
                ==> self.pending@.contains((i as usize, j)))
    }

    /// Link a pair and queue its children.
    fn link(
        &mut self,
        before: NodeId,
        after: NodeId,
        placement: Placement,
        reparenting: Option<Reparenting>,
    ) -> (linked: bool)
        requires
            old(self).wf(
                old(self).links.placement@.len() as int,
                old(self).links.partners.after@.len() as int,
            ),
            before < old(self).links.placement@.len(),
            after < old(self).links.partners.after@.len(),
        ensures
            final(self).wf(
                old(self).links.placement@.len() as int,
                old(self).links.partners.after@.len() as int,
            ),
            linked ==> final(self).budget + 1 == old(self).budget && final(self).pending@
                == old(self).pending@.push((before, after)),
            !linked ==> final(self).budget == old(self).budget && final(self).pending@
                == old(self).pending@,
            final(self).links.partners.grows(old(self).links.partners),
            !linked ==> final(self).links == old(self).links,
            linked && old(self).links.partners.before@[before as int] is Some ==> final(self).links
                == old(self).links,
            linked && old(self).links.partners.before@[before as int] is None ==> final(self).links.placement@ == old(self).links.placement@.update(before as int, placement),
            forall|i: int|
                0 <= i < old(self).links.placement@.len() && i != before ==> (
                #[trigger] final(self).links.partners.before@[i])
                    == old(self).links.partners.before@[i],
            old(self).budget > 0 && old(self).links.partners.before@[before as int] is None
                && old(self).links.partners.after@[after as int] is None
                ==> final(self).links.partners.before@[before as int] == Some(after),
            old(self).links.partners.before@[before as int] is None
                && old(self).links.partners.after@[after as int] is None && old(self).has_room(
                old(self).links.placement@.len() as int,
            ) ==> linked && final(self).has_room(old(self).links.placement@.len() as int)
                && final(self).links.partners.before@ == old(self).links.partners.before@.update(
                before as int,
                Some(after),
            ),
    {
        let ghost start = *self;
        proof {
            lemma_room(self.links.partners.before@, before as int, after);
        }
        if self.budget == 0 {
            return false;
        }
        if self.links.link_context(before, after, placement, reparenting) {
            self.budget -= 1;
            self.pending.push((before, after));
            proof {
                assert(self.links.partners.before.len() <= usize::MAX);
                assert(self.pending@[start.pending@.len() as int] == (before, after));
                if start.links.partners.before@[before as int] is None
                    && start.links.partners.after@[after as int] is None && start.has_room(
                    start.links.placement@.len() as int,
                ) {
                    assert(self.links.partners.before@ =~= start.links.partners.before@.update(
                        before as int,
                        Some(after),
                    ));
                    assert forall|i: int|
                        0 <= i < self.links.partners.before@.len() implies ((
                    #[trigger] self.links.partners.before@[i]) matches Some(j)
                        ==> self.pending@.contains((i as usize, j))) by {
                        if i != before && start.links.partners.before@[i] is Some {
                            let entry = (i as usize, start.links.partners.before@[i]->0);
                            assert(start.pending@.contains(entry));
                            let k = choose|k: int|
                                0 <= k < start.pending@.len() && start.pending@[k] == entry;
                            assert(self.pending@[k] == entry);
                        }
                    }
                }
            }
            true
        } else {
            false
        }
    }

    /// Match the children of a pair and link them.
    fn link_children(
        &mut self,
        scene: &Scene<'_>,
        before_parent: NodeId,
        after_parent: NodeId,
        allow_renames: bool,
    ) -> (linked: bool)
        requires
            scene.wf(),
            old(self).wf(scene.before_len(), scene.after_len()),
            before_parent < scene.before_len(),
            after_parent < scene.after_len(),
        ensures
            final(self).wf(scene.before_len(), scene.after_len()),
            final(self).pending@.len() + final(self).budget == old(self).pending@.len()
                + old(self).budget,
            final(self).budget <= old(self).budget,
            linked ==> final(self).budget < old(self).budget,
            final(self).links.partners.grows(old(self).links.partners),
            !linked ==> final(self).links.partners.before@ == old(self).links.partners.before@
                && final(self).pending@.len() == old(self).pending@.len(),
            final(self).pending@.take(old(self).pending@.len() as int) == old(self).pending@,
            old(self).has_room(scene.before_len()) ==> final(self).has_room(scene.before_len())
                && is_expanded(
                *scene,
                final(self).links.partners,
                before_parent,
                after_parent,
                allow_renames,
            ),
            forall|root: NodeId| #[trigger]
                are_placed(*scene, old(self).links, root) ==> are_placed(
                    *scene,
                    final(self).links,
                    root,
                ),
            forall|i: int|
                0 <= i < scene.before_len() && old(self).links.partners.before@[i] is Some ==> (
                #[trigger] final(self).links.placement@[i]) == old(self).links.placement@[i],
    {
        let before_children = direct_composites(&scene.pair.before, before_parent);
        let after_children = direct_composites(&scene.pair.after, after_parent);
        let pairs = contextual_child_matches(
            scene,
            &self.links,
            &before_children,
            &after_children,
            allow_renames,
        );
        let edges = edges_of(&pairs);
        let placements = contextual_match_placements(scene, &before_children, &edges, &self.links);
        let inherited = if self.links.partners.before[before_parent].is_some() {
            self.links.reparenting[before_parent]
        } else {
            None
        };
        let mut linked: bool = false;
        let mut index: usize = 0;
        let ghost start = *self;
        proof {
            assert(is_placing(
                *scene,
                start.links,
                before_children,
                after_children,
                pairs,
                edges@,
                placements@,
                before_parent,
                after_parent,
                allow_renames,
            ));
            assert forall|k: int| 0 <= k < edges@.len() implies start.links.partners.before@[before_children@[(
            #[trigger] edges@[k]).before as int] as int] is None
                && start.links.partners.after@[after_children@[edges@[k].after as int] as int] is None by {
                assert(pairs.before@[edges@[k].before as int] == Some(edges@[k].after));
            }
        }
        while index < edges.len()
            invariant
                scene.wf(),
                self.wf(scene.before_len(), scene.after_len()),
                index <= edges@.len(),
                spread(before_children@),
                spread(after_children@),
                mutual(pairs.before@, pairs.after@),
                pairs.before@.len() == before_children@.len(),
                pairs.after@.len() == after_children@.len(),
                forall|d: int, e: int|
                    0 <= d < e < edges@.len() ==> (#[trigger] edges@[d]).before < (
                    #[trigger] edges@[e]).before,
                forall|k: int|
                    0 <= k < edges@.len() ==> pairs.before@[(#[trigger] edges@[k]).before as int]
                        == Some(edges@[k].after),
                !linked ==> self.links.partners.before@ == start.links.partners.before@
                    && self.budget == start.budget,
                start.pending@.len() <= self.pending@.len(),
                self.pending@.take(start.pending@.len() as int) == start.pending@,
                start.has_room(scene.before_len()) ==> self.has_room(scene.before_len()),
                start.has_room(scene.before_len()) ==> forall|k: int|
                    0 <= k < index ==> self.links.partners.before@[before_children@[(
                    #[trigger] edges@[k]).before as int] as int] == Some(
                        after_children@[edges@[k].after as int],
                    ),
                start.has_room(scene.before_len()) ==> forall|k: int|
                    index <= k < edges@.len() ==> self.links.partners.before@[before_children@[(
                    #[trigger] edges@[k]).before as int] as int] is None
                        && self.links.partners.after@[after_children@[edges@[k].after as int] as int] is None,
                placements@.len() == edges@.len(),
                is_placing(
                    *scene,
                    start.links,
                    before_children,
                    after_children,
                    pairs,
                    edges@,
                    placements@,
                    before_parent,
                    after_parent,
                    allow_renames,
                ),
                forall|root: NodeId| #[trigger]
                    are_placed(*scene, start.links, root) ==> are_placed(*scene, self.links, root),
                forall|i: int|
                    0 <= i < scene.before_len() && start.links.partners.before@[i] is Some ==> (
                    #[trigger] self.links.placement@[i]) == start.links.placement@[i],
                indices_below(before_children@, scene.before_len()),
                indices_below(after_children@, scene.after_len()),
                forall|k: int|
                    0 <= k < edges@.len() ==> (#[trigger] edges@[k]).before < before_children@.len()
                        && edges@[k].after < after_children@.len(),
                self.pending@.len() + self.budget == start.pending@.len() + start.budget,
                self.budget <= start.budget,
                linked ==> self.budget < start.budget,
                self.links.partners.grows(start.links.partners),
            decreases edges@.len() - index,
        {
            let edge = edges[index];
            let before = before_children[edge.before];
            let after = after_children[edge.after];
            let ghost earlier = *self;
            proof {
                assert(edges@[index as int] == edge);
                assert forall|k: int| 0 <= k < edges@.len() && k != index implies before_children@[(
                #[trigger] edges@[k]).before as int] != before && after_children@[edges@[k].after as int]
                    != after by {
                    lemma_pairs_apart(edges@, pairs, k, index as int);
                    lemma_spread_apart(before_children@, edges@[k].before as int, edge.before as int);
                    lemma_spread_apart(after_children@, edges@[k].after as int, edge.after as int);
                }
            }
            if self.link(before, after, placements[index], inherited) {
                linked = true;
            }
            proof {
                assert(is_placement(*scene, before as int, placements@[index as int])) by {
                    reveal(is_placement);
                }
                assert forall|root: NodeId| #[trigger]
                    are_placed(*scene, earlier.links, root) implies are_placed(
                    *scene,
                    self.links,
                    root,
                ) by {
                    lemma_placed_next(
                        *scene,
                        earlier.links,
                        self.links,
                        root,
                        before as int,
                        placements@[index as int],
                    );
                }
                assert forall|i: int|
                    0 <= i < scene.before_len() && start.links.partners.before@[i] is Some implies (
                #[trigger] self.links.placement@[i]) == start.links.placement@[i] by {
                    assert(earlier.links.partners.before@[i] == start.links.partners.before@[i]);
                }
                lemma_grows_chain(
                    self.links.partners,
                    earlier.links.partners,
                    start.links.partners,
                );
                assert(self.pending@.take(start.pending@.len() as int) =~= earlier.pending@.take(
                    start.pending@.len() as int,
                ));
                if start.has_room(scene.before_len()) {
                    assert forall|k: int| index < k < edges@.len() implies
                        self.links.partners.after@[after_children@[(
                    #[trigger] edges@[k]).after as int] as int] is None by {
                        let right = after_children@[edges@[k].after as int];
                        if self.links.partners.after@[right as int] is Some {
                            let left = self.links.partners.after@[right as int]->0;
                            assert(self.links.partners.before@[left as int] == Some(right));
                            assert(left != before);
                            assert(earlier.links.partners.before@[left as int] == Some(right));
                            assert(earlier.links.partners.after@[right as int] == Some(left));
                        }
                    }
                }
            }
            index += 1;
        }
        proof {
            if start.has_room(scene.before_len()) {
                assert(before_children.len() <= usize::MAX);
                assert forall|x: int| 0 <= x < before_children@.len() implies ((
                #[trigger] pairs.before@[x]) matches Some(y)
                    ==> self.links.partners.before@[before_children@[x] as int] == Some(
                    after_children@[y as int],
                )) by {
                    if let Some(y) = pairs.before@[x] {
                        let edge = OrderedMatch { before: x as usize, after: y };
                        assert(edges@.contains(edge));
                        let k = choose|k: int| 0 <= k < edges@.len() && edges@[k] == edge;
                        assert(edges@[k].before == x);
                    }
                }
                reveal(is_expanded);
                assert(is_expansion(
                    *scene,
                    start.links,
                    before_children,
                    after_children,
                    pairs,
                    self.links.partners,
                    before_parent,
                    after_parent,
                    allow_renames,
                ));
            }
        }
        linked
    }
}

/// Two edges of a one-to-one pairing share no end.
proof fn lemma_pairs_apart(edges: Seq<OrderedMatch>, partners: Partners, k: int, l: int)
    requires
        0 <= k < edges.len(),
        0 <= l < edges.len(),
        k != l,
        mutual(partners.before@, partners.after@),
        forall|e: int|
            0 <= e < edges.len() ==> (#[trigger] edges[e]).before < partners.before@.len()
                && edges[e].after < partners.after@.len()
                && partners.before@[edges[e].before as int] == Some(edges[e].after),
        forall|d: int, e: int|
            0 <= d < e < edges.len() ==> (#[trigger] edges[d]).before < (#[trigger] edges[e]).before,
    ensures
        edges[k].before != edges[l].before,
        edges[k].after != edges[l].after,
{
    if k < l {
        assert(edges[k].before < edges[l].before);
    } else {
        assert(edges[l].before < edges[k].before);
    }
    assert(partners.before@[edges[k].before as int] == Some(edges[k].after));
    assert(partners.before@[edges[l].before as int] == Some(edges[l].after));
    assert(partners.after@[edges[k].after as int] == Some(edges[k].before));
}

/// A free node leaves room, and linking it takes one.
proof fn lemma_room(partner: Seq<Option<usize>>, index: int, other: usize)
    requires
        0 <= index < partner.len(),
    ensures
        linked_count(partner) <= partner.len(),
        partner[index] is None ==> linked_count(partner) < partner.len() && linked_count(
            partner.update(index, Some(other)),
        ) == linked_count(partner) + 1,
    decreases partner.len(),
{
    let fewer = partner.drop_last();
    let linked = partner.update(index, Some(other));
    if index < fewer.len() {
        lemma_room(fewer, index, other);
        assert(linked.drop_last() =~= fewer.update(index, Some(other)));
    } else {
        assert(linked.drop_last() =~= fewer);
        if fewer.len() > 0 {
            lemma_room(fewer, 0, other);
        }
    }
}

/// The children of two nodes were matched, and the matches have places.
pub open spec fn is_placing(
    scene: Scene<'_>,
    earlier: ContextLinks,
    before: Vec<NodeId>,
    after: Vec<NodeId>,
    pairs: Partners,
    matches: Seq<OrderedMatch>,
    placements: Seq<Placement>,
    before_parent: NodeId,
    after_parent: NodeId,
    renames: bool,
) -> bool {
    &&& before@ == scene.pair.before.nodes@[before_parent as int].children@.filter(
        |id: NodeId| scene.pair.before.nodes@[id as int].is_composite(),
    )
    &&& after@ == scene.pair.after.nodes@[after_parent as int].children@.filter(
        |id: NodeId| scene.pair.after.nodes@[id as int].is_composite(),
    )
    &&& children_matched(
        before_side(scene, earlier, before),
        after_side(scene, earlier, after),
        pairs,
        renames,
    )
    &&& lists_matches(pairs, matches)
    &&& are_child_placements(scene, before@, matches, earlier, placements)
}

/// The matches are those of the pairing, in before order.
pub open spec fn lists_matches(pairs: Partners, matches: Seq<OrderedMatch>) -> bool {
    &&& forall|k: int|
        0 <= k < matches.len() ==> (#[trigger] matches[k]).before < pairs.before@.len()
            && pairs.before@[matches[k].before as int] == Some(matches[k].after)
    &&& forall|d: int, e: int|
        0 <= d < e < matches.len() ==> (#[trigger] matches[d]).before < (
        #[trigger] matches[e]).before
    &&& forall|i: int|
        0 <= i < pairs.before@.len() ==> ((#[trigger] pairs.before@[i]) matches Some(j)
            ==> matches.contains(OrderedMatch { before: i as usize, after: j }))
}

/// The node was placed among the matched children of its parent.
#[verifier::opaque]
pub open spec fn is_placement(scene: Scene<'_>, id: int, placement: Placement) -> bool {
    exists|
        earlier: ContextLinks,
        before: Vec<NodeId>,
        after: Vec<NodeId>,
        pairs: Partners,
        matches: Seq<OrderedMatch>,
        placements: Seq<Placement>,
        before_parent: NodeId,
        after_parent: NodeId,
        renames: bool,
        k: int,
    |
        #![trigger is_placing(
            scene,
            earlier,
            before,
            after,
            pairs,
            matches,
            placements,
            before_parent,
            after_parent,
            renames,
        ), placements[k]]
        is_placing(
            scene,
            earlier,
            before,
            after,
            pairs,
            matches,
            placements,
            before_parent,
            after_parent,
            renames,
        ) && 0 <= k < matches.len() && before@[matches[k].before as int] == id && placements[k]
            == placement
}

/// The node was recovered through wrappers, and placed among what was recovered with it.
pub open spec fn is_recovered_placement(
    scene: Scene<'_>,
    id: int,
    placement: Placement,
) -> bool {
    exists|links: ContextLinks, before_unit: int, after_unit: int, recovered: Seq<Recovered>, k: int|
        #![trigger recovery_ok(scene, links, before_unit, after_unit, recovered), recovered[k]]
        recovery_ok(scene, links, before_unit, after_unit, recovered) && 0 <= k < recovered.len()
            && recovered[k].before == id && recovered[k].placement == placement
}

/// Every linked node but the root has the place that it was given among its siblings, or among
/// what was recovered with it.
pub open spec fn are_placed(scene: Scene<'_>, links: ContextLinks, root: NodeId) -> bool {
    forall|i: int|
        0 <= i < scene.before_len() && i != root && (
        #[trigger] links.partners.before@[i]) is Some ==> is_placement(
            scene,
            i,
            links.placement@[i],
        ) || is_recovered_placement(scene, i, links.placement@[i])
}

/// One more placed node.
proof fn lemma_placed_next(
    scene: Scene<'_>,
    earlier: ContextLinks,
    later: ContextLinks,
    root: NodeId,
    id: int,
    placement: Placement,
)
    requires
        are_placed(scene, earlier, root),
        earlier.wf(scene.before_len(), scene.after_len()),
        0 <= id < scene.before_len(),
        is_placement(scene, id, placement) || is_recovered_placement(scene, id, placement),
        forall|i: int|
            0 <= i < scene.before_len() && i != id ==> (#[trigger] later.partners.before@[i])
                == earlier.partners.before@[i],
        later == earlier || (earlier.partners.before@[id] is None && later.placement@
            == earlier.placement@.update(id, placement)),
    ensures
        are_placed(scene, later, root),
{
    assert forall|i: int|
        0 <= i < scene.before_len() && i != root && (
        #[trigger] later.partners.before@[i]) is Some implies is_placement(
        scene,
        i,
        later.placement@[i],
    ) || is_recovered_placement(scene, i, later.placement@[i]) by {
        if i != id {
            assert(earlier.partners.before@[i] is Some);
        }
    }
}

/// At some time the open children of two linked nodes were matched, and all pairs were linked.
pub open spec fn is_expansion(
    scene: Scene<'_>,
    earlier: ContextLinks,
    before: Vec<NodeId>,
    after: Vec<NodeId>,
    pairs: Partners,
    later: Partners,
    before_parent: NodeId,
    after_parent: NodeId,
    renames: bool,
) -> bool {
    &&& before@ == scene.pair.before.nodes@[before_parent as int].children@.filter(
        |id: NodeId| scene.pair.before.nodes@[id as int].is_composite(),
    )
    &&& after@ == scene.pair.after.nodes@[after_parent as int].children@.filter(
        |id: NodeId| scene.pair.after.nodes@[id as int].is_composite(),
    )
    &&& children_matched(
        before_side(scene, earlier, before),
        after_side(scene, earlier, after),
        pairs,
        renames,
    )
    &&& later.grows(earlier.partners)
    &&& forall|x: int|
        0 <= x < before@.len() ==> ((#[trigger] pairs.before@[x]) matches Some(y)
            ==> later.before@[before@[x] as int] == Some(after@[y as int]))
}

/// The children of two linked nodes were matched.
#[verifier::opaque]
pub open spec fn is_expanded(
    scene: Scene<'_>,
    partners: Partners,
    before_parent: NodeId,
    after_parent: NodeId,
    renames: bool,
) -> bool {
    exists|earlier: ContextLinks, before: Vec<NodeId>, after: Vec<NodeId>, pairs: Partners|
        #[trigger]
        is_expansion(
            scene,
            earlier,
            before,
            after,
            pairs,
            partners,
            before_parent,
            after_parent,
            renames,
        )
}

/// What was expanded stays expanded.
proof fn lemma_expanded_stays(
    scene: Scene<'_>,
    earlier: Partners,
    later: Partners,
    before_parent: NodeId,
    after_parent: NodeId,
    renames: bool,
)
    requires
        scene.wf(),
        before_parent < scene.before_len(),
        earlier.before@.len() == scene.before_len(),
        is_expanded(scene, earlier, before_parent, after_parent, renames),
        later.grows(earlier),
    ensures
        is_expanded(scene, later, before_parent, after_parent, renames),
{
    reveal(is_expanded);
    let (start, before, after, pairs) = choose|
        start: ContextLinks,
        before: Vec<NodeId>,
        after: Vec<NodeId>,
        pairs: Partners,
    | #[trigger]
        is_expansion(
            scene,
            start,
            before,
            after,
            pairs,
            earlier,
            before_parent,
            after_parent,
            renames,
        );
    lemma_grows_chain(later, earlier, start.partners);
    let children = scene.pair.before.nodes@[before_parent as int].children@;
    let keep = |id: NodeId| scene.pair.before.nodes@[id as int].is_composite();
    assert forall|x: int| 0 <= x < before@.len() implies ((#[trigger] pairs.before@[x]) matches Some(
        y,
    ) ==> later.before@[before@[x] as int] == Some(after@[y as int])) by {
        if let Some(y) = pairs.before@[x] {
            assert(earlier.before@[before@[x] as int] == Some(after@[y as int]));
            assert(before@.contains(before@[x]));
            children.lemma_filter_contains_rev(keep, before@[x]);
            assert(children_hold(scene.pair.before.nodes@, before_parent as int));
            let k = choose|k: int| 0 <= k < children.len() && children[k] == before@[x];
            assert(scene.pair.before.nodes@[before_parent as int].children[k] == before@[x]);
            assert(node_fits(
                scene.pair.before.nodes@[before_parent as int],
                before_parent as int,
                scene.before_len(),
                scene.pair.before.source.data().len() as int,
            ));
        }
    }
    assert(is_expansion(
        scene,
        start,
        before,
        after,
        pairs,
        later,
        before_parent,
        after_parent,
        renames,
    ));
}

/// The pairs from which the contexts of two units are kept: the units, and from every pair on the
/// matches of its children, first without and then with renames, until no match is left and
/// nothing more can be recovered through wrappers.
pub open spec fn are_grown_contexts(
    scene: Scene<'_>,
    grown: ContextLinks,
    before_unit: NodeId,
    after_unit: NodeId,
) -> bool {
    &&& grown.wf(scene.before_len(), scene.after_len())
    &&& grown.partners.before@[before_unit as int] == Some(after_unit)
    &&& are_placed(scene, grown, before_unit)
    &&& forall|b: usize, a: usize|
        b < scene.before_len() && #[trigger] is_linked(grown.partners, b, a) ==> is_expanded(
            scene,
            grown.partners,
            b,
            a,
            false,
        ) && is_expanded(scene, grown.partners, b, a, true)
    &&& forall|b: int, a: int| !#[trigger]
        is_confident(scene, grown, before_unit as int, after_unit as int, b, a)
}

/// The two nodes are linked.
pub open spec fn is_linked(partners: Partners, before: usize, after: usize) -> bool {
    partners.before@[before as int] == Some(after)
}

/// A linked pair sits in the same field of linked parents, or has wrapper evidence.
pub open spec fn is_supported(
    scene: Scene<'_>,
    partners: Partners,
    before_unit: int,
    after_unit: int,
    before: int,
) -> bool {
    partners.before@[before] matches Some(after) ==> parents_linked(
        scene,
        partners.before@,
        before_unit,
        after_unit,
        before,
        after as int,
    ) || reparenting_of(
        *scene.pair,
        partners.before@,
        partners.after@,
        before,
        after as int,
    ) is Some
}

/// Exactly the supported pairs are kept.
pub open spec fn keeps_supported(
    scene: Scene<'_>,
    before_unit: int,
    after_unit: int,
    earlier: Partners,
    later: Partners,
) -> bool {
    forall|i: int|
        0 <= i < scene.before_len() ==> (#[trigger] later.before@[i]) == if is_supported(
            scene,
            earlier,
            before_unit,
            after_unit,
            i,
        ) {
            earlier.before@[i]
        } else {
            None
        }
}

/// Pairs without support are dropped round by round.
pub open spec fn are_rounds(
    scene: Scene<'_>,
    before_unit: int,
    after_unit: int,
    rounds: Seq<Partners>,
) -> bool {
    &&& rounds.len() > 0
    &&& forall|k: int|
        0 <= k < rounds.len() - 1 ==> keeps_supported(
            scene,
            before_unit,
            after_unit,
            #[trigger] rounds[k],
            rounds[k + 1],
        )
}

/// Wrapper evidence of every pair: that of its parents where they are linked, and else its own.
pub open spec fn wrappers_fresh(
    scene: Scene<'_>,
    links: ContextLinks,
    before_unit: int,
    after_unit: int,
    end: int,
) -> bool {
    forall|i: int|
        0 <= i < end ==> (#[trigger] links.reparenting@[i]) == match links.partners.before@[i] {
            Some(j) => if parents_linked(
                scene,
                links.partners.before@,
                before_unit,
                after_unit,
                i,
                j as int,
            ) {
                match scene.pair.before.nodes@[i].parent {
                    Some(parent) => if links.partners.before@[parent as int] is Some {
                        links.reparenting@[parent as int]
                    } else {
                        None
                    },
                    None => None,
                }
            } else {
                reparenting_of(
                    *scene.pair,
                    links.partners.before@,
                    links.partners.after@,
                    i,
                    j as int,
                )
            },
            None => None,
        }
}

/// The contexts of two units are the supported ones of those that can be grown from the units.
pub open spec fn are_contexts_of(
    scene: Scene<'_>,
    links: ContextLinks,
    before_unit: NodeId,
    after_unit: NodeId,
    grown: ContextLinks,
    rounds: Seq<Partners>,
) -> bool {
    &&& are_grown_contexts(scene, grown, before_unit, after_unit)
    &&& are_rounds(scene, before_unit as int, after_unit as int, rounds)
    &&& rounds[0] == grown.partners
    &&& rounds.last() == links.partners
    &&& wrappers_fresh(scene, links, before_unit as int, after_unit as int, scene.before_len())
    &&& links.placement@ == grown.placement@
}

/// The contexts of two units are grown from them.
#[verifier::opaque]
pub open spec fn are_unit_matches(
    scene: Scene<'_>,
    links: ContextLinks,
    before_unit: NodeId,
    after_unit: NodeId,
) -> bool {
    exists|grown: ContextLinks, rounds: Seq<Partners>| #[trigger]
        are_contexts_of(scene, links, before_unit, after_unit, grown, rounds)
}

/// Partner pairs in before order.
pub fn edges_of(partners: &Partners) -> (edges: Vec<OrderedMatch>)
    requires
        mutual(partners.before@, partners.after@),
    ensures
        forall|k: int|
            0 <= k < edges@.len() ==> (#[trigger] edges@[k]).before < partners.before@.len()
                && edges@[k].after < partners.after@.len()
                && partners.before@[edges@[k].before as int] == Some(edges@[k].after),
        forall|d: int, e: int|
            0 <= d < e < edges@.len() ==> (#[trigger] edges@[d]).before < (
            #[trigger] edges@[e]).before,
        forall|i: int|
            0 <= i < partners.before@.len() ==> ((#[trigger] partners.before@[i]) matches Some(j)
                ==> edges@.contains(OrderedMatch { before: i as usize, after: j })),
{
    let mut edges: Vec<OrderedMatch> = Vec::new();
    let mut index: usize = 0;
    assert(partners.before.len() <= usize::MAX);
    while index < partners.before.len()
        invariant
            index <= partners.before@.len(),
            partners.before@.len() <= usize::MAX,
            mutual(partners.before@, partners.after@),
            forall|k: int|
                0 <= k < edges@.len() ==> (#[trigger] edges@[k]).before < index
                    && edges@[k].after < partners.after@.len()
                    && partners.before@[edges@[k].before as int] == Some(edges@[k].after),
            forall|d: int, e: int|
                0 <= d < e < edges@.len() ==> (#[trigger] edges@[d]).before < (
                #[trigger] edges@[e]).before,
            forall|i: int|
                0 <= i < index ==> ((#[trigger] partners.before@[i]) matches Some(j)
                    ==> edges@.contains(OrderedMatch { before: i as usize, after: j })),
        decreases partners.before@.len() - index,
    {
        let ghost earlier = edges@;
        if let Some(after) = partners.before[index] {
            edges.push(OrderedMatch { before: index, after });
            assert(edges@[earlier.len() as int] == OrderedMatch { before: index, after });
        }
        proof {
            assert forall|i: int| 0 <= i < index + 1 implies ((
            #[trigger] partners.before@[i]) matches Some(j) ==> edges@.contains(
                OrderedMatch { before: i as usize, after: j },
            )) by {
                if i < index && partners.before@[i] is Some {
                    let edge = OrderedMatch { before: i as usize, after: partners.before@[i]->0 };
                    assert(earlier.contains(edge));
                    let at = choose|at: int| 0 <= at < earlier.len() && earlier[at] == edge;
                    assert(edges@[at] == edge);
                }
            }
        }
        index += 1;
    }
    edges
}

/// Matches of nodes that decorate nothing.
pub open spec fn plain_matches(
    scene: Scene<'_>,
    before: Seq<NodeId>,
    matches: Seq<OrderedMatch>,
) -> Seq<OrderedMatch>
    decreases matches.len(),
{
    if matches.len() == 0 {
        Seq::empty()
    } else {
        let earlier = plain_matches(scene, before, matches.drop_last());
        let id = before[matches.last().before as int];
        if scene.pair.before.nodes@[id as int].decoration_owner is None {
            earlier.push(matches.last())
        } else {
            earlier
        }
    }
}

/// Place of the last of the first matches that is of the node, or else what is given.
pub open spec fn place_of(
    before: Seq<NodeId>,
    matches: Seq<OrderedMatch>,
    places: Seq<Placement>,
    id: NodeId,
    count: int,
    otherwise: Placement,
) -> Placement
    decreases count,
{
    if count <= 0 {
        otherwise
    } else if before[matches[count - 1].before as int] == id {
        places[count - 1]
    } else {
        place_of(before, matches, places, id, count - 1, otherwise)
    }
}

/// A longest uncrossed sequence of the matches that decorate nothing is stable, and the others of
/// them are moves. Decorations have the place of their owner, be it matched here or linked before.
pub open spec fn are_child_placements(
    scene: Scene<'_>,
    before: Seq<NodeId>,
    matches: Seq<OrderedMatch>,
    links: ContextLinks,
    placements: Seq<Placement>,
) -> bool {
    let plain = plain_matches(scene, before, matches);
    &&& placements.len() == matches.len()
    &&& exists|places: Seq<Placement>| #[trigger]
        places_longest(plain, places) && places.len() == plain.len() && forall|k: int|
            0 <= k < matches.len() ==> #[trigger] placements[k] == match scene.pair.before.nodes@[before[matches[k].before as int] as int].decoration_owner {
                None => places[plain_matches(scene, before, matches.take(k)).len() as int],
                Some(owner) => place_of(
                    before,
                    plain,
                    places,
                    owner,
                    plain.len() as int,
                    links.placement@[owner as int],
                ),
            }
}

/// One more match.
proof fn lemma_plain_next(
    scene: Scene<'_>,
    before: Seq<NodeId>,
    matches: Seq<OrderedMatch>,
    at: int,
)
    requires
        0 <= at < matches.len(),
    ensures
        plain_matches(scene, before, matches.take(at + 1)) == if scene.pair.before.nodes@[before[matches[at].before as int] as int].decoration_owner is None {
            plain_matches(scene, before, matches.take(at)).push(matches[at])
        } else {
            plain_matches(scene, before, matches.take(at))
        },
{
    assert(matches.take(at + 1).drop_last() =~= matches.take(at));
    assert(matches.take(at + 1).last() == matches[at]);
}

/// More matches hold no fewer that decorate nothing.
proof fn lemma_plain_count(
    scene: Scene<'_>,
    before: Seq<NodeId>,
    matches: Seq<OrderedMatch>,
    at: int,
    end: int,
)
    requires
        0 <= at <= end <= matches.len(),
    ensures
        plain_matches(scene, before, matches.take(at)).len() <= plain_matches(
            scene,
            before,
            matches.take(end),
        ).len(),
    decreases end - at,
{
    if at < end {
        lemma_plain_count(scene, before, matches, at, end - 1);
        lemma_plain_next(scene, before, matches, end - 1);
    }
}

/// Decide movement from sibling order, then give decorations their owner's placement.
fn contextual_match_placements(
    scene: &Scene<'_>,
    before: &Vec<NodeId>,
    matches: &Vec<OrderedMatch>,
    links: &ContextLinks,
) -> (placements: Vec<Placement>)
    requires
        scene.wf(),
        links.wf(scene.before_len(), scene.after_len()),
        indices_below(before@, scene.before_len()),
        forall|k: int|
            0 <= k < matches@.len() ==> (#[trigger] matches@[k]).before < before@.len(),
    ensures
        are_child_placements(*scene, before@, matches@, *links, placements@),
{
    let mut plain: Vec<OrderedMatch> = Vec::new();
    let mut index: usize = 0;
    while index < matches.len()
        invariant
            scene.wf(),
            index <= matches@.len(),
            indices_below(before@, scene.before_len()),
            forall|k: int|
                0 <= k < matches@.len() ==> (#[trigger] matches@[k]).before < before@.len(),
            forall|k: int|
                0 <= k < plain@.len() ==> (#[trigger] plain@[k]).before < before@.len(),
            plain@ == plain_matches(*scene, before@, matches@.take(index as int)),
        decreases matches@.len() - index,
    {
        let edge = matches[index];
        proof {
            lemma_plain_next(*scene, before@, matches@, index as int);
        }
        if scene.pair.before.nodes[before[edge.before]].decoration_owner.is_none() {
            plain.push(edge);
        }
        index += 1;
    }
    assert(matches@.take(index as int) =~= matches@);
    let plain_placements = match_placements(&plain);
    let mut placements: Vec<Placement> = Vec::new();
    let mut next_plain: usize = 0;
    let mut position: usize = 0;
    while position < matches.len()
        invariant
            scene.wf(),
            links.wf(scene.before_len(), scene.after_len()),
            position <= matches@.len(),
            placements@.len() == position,
            plain_placements@.len() == plain@.len(),
            indices_below(before@, scene.before_len()),
            forall|k: int|
                0 <= k < matches@.len() ==> (#[trigger] matches@[k]).before < before@.len(),
            forall|k: int|
                0 <= k < plain@.len() ==> (#[trigger] plain@[k]).before < before@.len(),
            plain@ == plain_matches(*scene, before@, matches@),
            next_plain == plain_matches(*scene, before@, matches@.take(position as int)).len(),
            forall|k: int|
                0 <= k < position ==> #[trigger] placements@[k] == match scene.pair.before.nodes@[before@[matches@[k].before as int] as int].decoration_owner {
                    None => plain_placements@[plain_matches(
                        *scene,
                        before@,
                        matches@.take(k),
                    ).len() as int],
                    Some(owner) => place_of(
                        before@,
                        plain@,
                        plain_placements@,
                        owner,
                        plain@.len() as int,
                        links.placement@[owner as int],
                    ),
                },
        decreases matches@.len() - position,
    {
        let id = before[matches[position].before];
        assert(node_fits(
            scene.pair.before.nodes@[id as int],
            id as int,
            scene.before_len(),
            scene.pair.before.source.data().len() as int,
        ));
        proof {
            lemma_plain_next(*scene, before@, matches@, position as int);
            lemma_plain_count(
                *scene,
                before@,
                matches@,
                position + 1,
                matches@.len() as int,
            );
            assert(matches@.take(matches@.len() as int) =~= matches@);
        }
        let placement = match scene.pair.before.nodes[id].decoration_owner {
            None => {
                let placement = plain_placements[next_plain];
                next_plain += 1;
                placement
            },
            Some(owner) => {
                let mut placement = links.placement[owner];
                let mut other: usize = 0;
                while other < plain.len()
                    invariant
                        other <= plain@.len(),
                        plain_placements@.len() == plain@.len(),
                        forall|k: int|
                            0 <= k < plain@.len() ==> (#[trigger] plain@[k]).before < before@.len(),
                        placement == place_of(
                            before@,
                            plain@,
                            plain_placements@,
                            owner,
                            other as int,
                            links.placement@[owner as int],
                        ),
                    decreases plain@.len() - other,
                {
                    if before[plain[other].before] == owner {
                        placement = plain_placements[other];
                    }
                    other += 1;
                }
                placement
            },
        };
        placements.push(placement);
        position += 1;
    }
    placements
}

/// Every linked pair sits in the same field of linked parents, or has wrapper evidence.
pub open spec fn links_supported(
    scene: Scene<'_>,
    links: ContextLinks,
    before_unit: int,
    after_unit: int,
) -> bool {
    forall|i: int|
        0 <= i < scene.before_len() ==> ((#[trigger] links.partners.before@[i]) matches Some(j)
            ==> parents_linked(
            scene,
            links.partners.before@,
            before_unit,
            after_unit,
            i,
            j as int,
        ) || reparenting_of(
            *scene.pair,
            links.partners.before@,
            links.partners.after@,
            i,
            j as int,
        ) is Some)
}

/// The units themselves are linked, where they stand in the same field.
pub open spec fn unit_linked(
    scene: Scene<'_>,
    links: ContextLinks,
    before_unit: NodeId,
    after_unit: NodeId,
) -> bool {
    scene.before.symbols@[before_unit as int].slot == scene.after.symbols@[after_unit as int].slot
        ==> links.partners.before@[before_unit as int] == Some(after_unit)
}

/// Pair the contexts of two matched units.
///
/// Children of paired contexts are matched first. What wrappers carried along is recovered next.
/// Renames are guessed last, so that a guess never takes the partner of surviving content.
pub fn contextual_links(
    scene: &Scene<'_>,
    before_unit: NodeId,
    after_unit: NodeId,
    unit_placement: Placement,
) -> (links: ContextLinks)
    requires
        scene.wf(),
        before_unit < scene.before_len(),
        after_unit < scene.after_len(),
    ensures
        links.wf(scene.before_len(), scene.after_len()),
        links_supported(*scene, links, before_unit as int, after_unit as int),
        unit_linked(*scene, links, before_unit, after_unit),
        are_unit_matches(*scene, links, before_unit, after_unit),
        links.placement@[before_unit as int] == unit_placement,
{
    let before_len = scene.pair.before.nodes.len();
    let after_len = scene.pair.after.nodes.len();
    let mut growth = Growth {
        links: ContextLinks::new(before_len, after_len),
        pending: Vec::new(),
        budget: before_len,
    };
    assert(scene.pair.before.has_node(before_unit as int));
    proof {
        lemma_nothing_linked(growth.links.partners.before@);
    }
    let started = growth.link(before_unit, after_unit, unit_placement, None);
    let mut head: usize = 0;
    let mut deferred: Vec<(NodeId, NodeId)> = Vec::new();
    let mut progress: bool = true;
    while progress
        invariant
            scene.wf(),
            growth.wf(scene.before_len(), scene.after_len()),
            growth.links.partners.before@[before_unit as int] == Some(after_unit),
            growth.links.placement@[before_unit as int] == unit_placement,
            are_placed(*scene, growth.links, before_unit),
            before_unit < scene.before_len(),
            after_unit < scene.after_len(),
            head <= growth.pending@.len(),
            forall|k: int|
                0 <= k < deferred@.len() ==> (#[trigger] deferred@[k]).0 < scene.before_len()
                    && deferred@[k].1 < scene.after_len(),
            growth.has_room(scene.before_len()),
            are_explored(*scene, growth.pending@, head as int, deferred@, growth.links.partners),
            !progress ==> deferred@.len() == 0 && head == growth.pending@.len()
                && (forall|b: int, a: int| !#[trigger]
                is_confident(*scene, growth.links, before_unit as int, after_unit as int, b, a)),
        decreases
            growth.budget,
            if progress {
                1int
            } else {
                0int
            },
    {
        let ghost start_budget = growth.budget;
        while head < growth.pending.len()
            invariant
                scene.wf(),
                growth.wf(scene.before_len(), scene.after_len()),
                growth.links.partners.before@[before_unit as int] == Some(after_unit),
                growth.links.placement@[before_unit as int] == unit_placement,
                are_placed(*scene, growth.links, before_unit),
                before_unit < scene.before_len(),
                head <= growth.pending@.len(),
                growth.budget <= start_budget,
                forall|k: int|
                    0 <= k < deferred@.len() ==> (#[trigger] deferred@[k]).0 < scene.before_len()
                        && deferred@[k].1 < scene.after_len(),
                growth.has_room(scene.before_len()),
                are_explored(
                    *scene,
                    growth.pending@,
                    head as int,
                    deferred@,
                    growth.links.partners,
                ),
            decreases growth.pending@.len() + growth.budget - head,
        {
            let (before_parent, after_parent) = growth.pending[head];
            assert(growth.pending@[head as int] == (before_parent, after_parent));
            let ghost earlier = growth;
            let ghost waiting = deferred@;
            let linked = growth.link_children(scene, before_parent, after_parent, false);
            deferred.push((before_parent, after_parent));
            proof {
                lemma_explored_step(
                    *scene,
                    earlier.pending@,
                    growth.pending@,
                    head as int,
                    waiting,
                    earlier.links.partners,
                    growth.links.partners,
                );
            }
            head += 1;
        }
        let recovered = confident_reparented_context_matches(
            scene,
            &growth.links,
            before_unit,
            after_unit,
        );
        let ghost searched = growth;
        proof {
            lemma_recovered_apart(
                *scene,
                growth.links,
                before_unit as int,
                after_unit as int,
                recovered@,
            );
        }
        let mut found: bool = false;
        let mut index: usize = 0;
        while index < recovered.len()
            invariant
                scene.wf(),
                growth.wf(scene.before_len(), scene.after_len()),
                growth.links.partners.before@[before_unit as int] == Some(after_unit),
                growth.links.placement@[before_unit as int] == unit_placement,
                are_placed(*scene, growth.links, before_unit),
                before_unit < scene.before_len(),
                index <= recovered@.len(),
                head <= growth.pending@.len(),
                growth.budget <= start_budget,
                found ==> growth.budget < start_budget,
                forall|k: int|
                    0 <= k < recovered@.len() ==> (#[trigger] recovered@[k]).before
                        < scene.before_len() && recovered@[k].after < scene.after_len(),
                recovery_ok(
                    *scene,
                    searched.links,
                    before_unit as int,
                    after_unit as int,
                    recovered@,
                ),
                growth.has_room(scene.before_len()),
                are_explored(
                    *scene,
                    growth.pending@,
                    head as int,
                    deferred@,
                    growth.links.partners,
                ),
                index > 0 ==> found,
                index == 0 ==> growth == searched,
                forall|k: int, l: int|
                    0 <= k < l < recovered@.len() ==> (#[trigger] recovered@[k]).before != (
                    #[trigger] recovered@[l]).before && recovered@[k].after != recovered@[l].after,
                forall|k: int|
                    index <= k < recovered@.len() ==> growth.links.partners.before@[(
                    #[trigger] recovered@[k]).before as int] is None
                        && growth.links.partners.after@[recovered@[k].after as int] is None,
            decreases recovered@.len() - index,
        {
            let pair = recovered[index];
            let ghost earlier = growth;
            assert(recovered@[index as int] == pair);
            if growth.link(pair.before, pair.after, pair.placement, Some(pair.reparenting)) {
                found = true;
            }
            proof {
                assert(growth.pending@.take(earlier.pending@.len() as int) =~= earlier.pending@);
                assert(is_recovered_placement(*scene, pair.before as int, pair.placement));
                lemma_placed_next(
                    *scene,
                    earlier.links,
                    growth.links,
                    before_unit,
                    pair.before as int,
                    pair.placement,
                );
                lemma_explored_grows(
                    *scene,
                    earlier.pending@,
                    growth.pending@,
                    head as int,
                    deferred@,
                    earlier.links.partners,
                    growth.links.partners,
                );
                assert forall|k: int| index < k < recovered@.len() implies
                    growth.links.partners.before@[(#[trigger] recovered@[k]).before as int] is None
                    && growth.links.partners.after@[recovered@[k].after as int] is None by {
                    let right = recovered@[k].after;
                    assert(recovered@[index as int].before != recovered@[k].before);
                    if growth.links.partners.after@[right as int] is Some {
                        let left = growth.links.partners.after@[right as int]->0;
                        assert(growth.links.partners.before@[left as int] == Some(right));
                        assert(left != pair.before);
                        assert(earlier.links.partners.before@[left as int] == Some(right));
                        assert(earlier.links.partners.after@[right as int] == Some(left));
                    }
                }
            }
            index += 1;
        }
        if !found {
            proof {
                assert(recovered@.len() == 0);
                assert forall|b: int, a: int| !#[trigger]
                    is_confident(
                        *scene,
                        growth.links,
                        before_unit as int,
                        after_unit as int,
                        b,
                        a,
                    ) by {
                    if is_confident(
                        *scene,
                        growth.links,
                        before_unit as int,
                        after_unit as int,
                        b,
                        a,
                    ) {
                        assert(is_enclosed(*scene, recovered_edges(recovered@), b, a));
                    }
                }
            }
            let ghost tried = growth;
            let mut renamed: bool = false;
            let mut position: usize = 0;
            while position < deferred.len()
                invariant
                    scene.wf(),
                    growth.wf(scene.before_len(), scene.after_len()),
                growth.links.partners.before@[before_unit as int] == Some(after_unit),
                growth.links.placement@[before_unit as int] == unit_placement,
                are_placed(*scene, growth.links, before_unit),
                before_unit < scene.before_len(),
                    position <= deferred@.len(),
                    head <= growth.pending@.len(),
                    growth.budget <= start_budget,
                    renamed ==> growth.budget < start_budget,
                    forall|k: int|
                        0 <= k < deferred@.len() ==> (#[trigger] deferred@[k]).0
                            < scene.before_len() && deferred@[k].1 < scene.after_len(),
                    growth.has_room(scene.before_len()),
                    are_explored(
                        *scene,
                        growth.pending@,
                        head as int,
                        deferred@,
                        growth.links.partners,
                    ),
                    forall|k: int|
                        0 <= k < position ==> is_expanded(
                            *scene,
                            growth.links.partners,
                            (#[trigger] deferred@[k]).0,
                            deferred@[k].1,
                            true,
                        ),
                    !renamed ==> growth.links.partners.before@ == tried.links.partners.before@
                        && growth.pending@.len() == tried.pending@.len(),
                    growth.links.partners.after@.len() == scene.after_len(),
                decreases deferred@.len() - position,
            {
                let (before_parent, after_parent) = deferred[position];
                assert(deferred@[position as int] == (before_parent, after_parent));
                let ghost earlier = growth;
                if growth.link_children(scene, before_parent, after_parent, true) {
                    renamed = true;
                }
                proof {
                    lemma_explored_grows(
                        *scene,
                        earlier.pending@,
                        growth.pending@,
                        head as int,
                        deferred@,
                        earlier.links.partners,
                        growth.links.partners,
                    );
                    assert forall|k: int| 0 <= k < position + 1 implies is_expanded(
                        *scene,
                        growth.links.partners,
                        (#[trigger] deferred@[k]).0,
                        deferred@[k].1,
                        true,
                    ) by {
                        if k < position {
                            lemma_expanded_stays(
                                *scene,
                                earlier.links.partners,
                                growth.links.partners,
                                deferred@[k].0,
                                deferred@[k].1,
                                true,
                            );
                        }
                    }
                }
                position += 1;
            }
            proof {
                lemma_all_explored(
                    *scene,
                    growth.pending@,
                    head as int,
                    deferred@,
                    growth.links.partners,
                );
                if !renamed {
                    lemma_same_partners(growth.links.partners, tried.links.partners);
                    assert forall|b: int, a: int| !#[trigger]
                        is_confident(
                            *scene,
                            growth.links,
                            before_unit as int,
                            after_unit as int,
                            b,
                            a,
                        ) by {
                        if is_confident(
                            *scene,
                            growth.links,
                            before_unit as int,
                            after_unit as int,
                            b,
                            a,
                        ) {
                            lemma_same_confidence(
                                *scene,
                                growth.links,
                                tried.links,
                                before_unit as int,
                                after_unit as int,
                                b,
                                a,
                            );
                        }
                        assert(!is_confident(
                            *scene,
                            tried.links,
                            before_unit as int,
                            after_unit as int,
                            b,
                            a,
                        ));
                    }
                }
            }
            deferred = Vec::new();
            progress = renamed;
        }
    }
    let ghost grown = growth.links;
    proof {
        assert forall|b: usize, a: usize|
            b < scene.before_len() && #[trigger] is_linked(grown.partners, b, a) implies is_expanded(
            *scene,
            grown.partners,
            b,
            a,
            false,
        ) && is_expanded(*scene, grown.partners, b, a, true) by {
            assert(grown.partners.before@[b as int] == Some(a));
            assert(growth.pending@.contains((b, a)));
            let k = choose|k: int| 0 <= k < growth.pending@.len() && growth.pending@[k] == (b, a);
            assert(growth.pending@[k] == (b, a));
        }
        assert(are_grown_contexts(*scene, grown, before_unit, after_unit));
    }
    let mut links = growth.links;
    retain_valid_context_links(scene, before_unit, after_unit, &mut links);
    proof {
        reveal(are_unit_matches);
        let rounds = choose|rounds: Seq<Partners>| #[trigger]
            are_rounds(*scene, before_unit as int, after_unit as int, rounds) && rounds[0]
                == grown.partners && rounds.last() == links.partners;
        assert(are_contexts_of(*scene, links, before_unit, after_unit, grown, rounds));
    }
    links
}

/// Nothing linked counts nothing.
proof fn lemma_nothing_linked(partner: Seq<Option<usize>>)
    requires
        forall|i: int| 0 <= i < partner.len() ==> (#[trigger] partner[i]) is None,
    ensures
        linked_count(partner) == 0,
    decreases partner.len(),
{
    if partner.len() > 0 {
        assert(partner[partner.len() - 1] is None);
        assert forall|i: int| 0 <= i < partner.drop_last().len() implies (
        #[trigger] partner.drop_last()[i]) is None by {
            assert(partner[i] is None);
        }
        lemma_nothing_linked(partner.drop_last());
    }
}

/// The pairs that were taken from the queue had their children matched without renames, and with
/// renames unless they still wait for that.
spec fn are_explored(
    scene: Scene<'_>,
    pending: Seq<(NodeId, NodeId)>,
    head: int,
    deferred: Seq<(NodeId, NodeId)>,
    partners: Partners,
) -> bool {
    forall|k: int|
        0 <= k < head ==> is_expanded(
            scene,
            partners,
            (#[trigger] pending[k]).0,
            pending[k].1,
            false,
        ) && (deferred.contains(pending[k]) || is_expanded(
            scene,
            partners,
            pending[k].0,
            pending[k].1,
            true,
        ))
}

proof fn lemma_explored_grows(
    scene: Scene<'_>,
    pending: Seq<(NodeId, NodeId)>,
    more: Seq<(NodeId, NodeId)>,
    head: int,
    deferred: Seq<(NodeId, NodeId)>,
    earlier: Partners,
    later: Partners,
)
    requires
        scene.wf(),
        0 <= head <= pending.len() <= more.len(),
        more.take(pending.len() as int) == pending,
        forall|k: int| 0 <= k < pending.len() ==> (#[trigger] pending[k]).0 < scene.before_len(),
        earlier.before@.len() == scene.before_len(),
        are_explored(scene, pending, head, deferred, earlier),
        later.grows(earlier),
    ensures
        are_explored(scene, more, head, deferred, later),
{
    assert forall|k: int| 0 <= k < head implies is_expanded(
        scene,
        later,
        (#[trigger] more[k]).0,
        more[k].1,
        false,
    ) && (deferred.contains(more[k]) || is_expanded(scene, later, more[k].0, more[k].1, true)) by {
        assert(more.take(pending.len() as int)[k] == more[k]);
        assert(pending[k] == more[k]);
        lemma_expanded_stays(scene, earlier, later, pending[k].0, pending[k].1, false);
        if !deferred.contains(pending[k]) {
            lemma_expanded_stays(scene, earlier, later, pending[k].0, pending[k].1, true);
        }
    }
}

proof fn lemma_explored_step(
    scene: Scene<'_>,
    pending: Seq<(NodeId, NodeId)>,
    more: Seq<(NodeId, NodeId)>,
    head: int,
    deferred: Seq<(NodeId, NodeId)>,
    earlier: Partners,
    later: Partners,
)
    requires
        scene.wf(),
        0 <= head < pending.len() <= more.len(),
        more.take(pending.len() as int) == pending,
        forall|k: int| 0 <= k < pending.len() ==> (#[trigger] pending[k]).0 < scene.before_len(),
        earlier.before@.len() == scene.before_len(),
        are_explored(scene, pending, head, deferred, earlier),
        later.grows(earlier),
        is_expanded(scene, later, pending[head].0, pending[head].1, false),
    ensures
        are_explored(scene, more, head + 1, deferred.push(pending[head]), later),
{
    lemma_explored_grows(scene, pending, more, head, deferred, earlier, later);
    let waiting = deferred.push(pending[head]);
    assert forall|k: int| 0 <= k < head + 1 implies is_expanded(
        scene,
        later,
        (#[trigger] more[k]).0,
        more[k].1,
        false,
    ) && (waiting.contains(more[k]) || is_expanded(scene, later, more[k].0, more[k].1, true)) by {
        if k < head {
            if deferred.contains(more[k]) {
                let at = choose|at: int| 0 <= at < deferred.len() && deferred[at] == more[k];
                assert(waiting[at] == more[k]);
            }
        } else {
            assert(more.take(pending.len() as int)[k] == more[k]);
            assert(waiting[deferred.len() as int] == more[k]);
        }
    }
}

/// Where everything that waited was matched with renames, nothing waits.
proof fn lemma_all_explored(
    scene: Scene<'_>,
    pending: Seq<(NodeId, NodeId)>,
    head: int,
    deferred: Seq<(NodeId, NodeId)>,
    partners: Partners,
)
    requires
        are_explored(scene, pending, head, deferred, partners),
        forall|k: int|
            0 <= k < deferred.len() ==> is_expanded(
                scene,
                partners,
                (#[trigger] deferred[k]).0,
                deferred[k].1,
                true,
            ),
    ensures
        are_explored(scene, pending, head, Seq::empty(), partners),
{
    assert forall|k: int| 0 <= k < head implies is_expanded(
        scene,
        partners,
        (#[trigger] pending[k]).0,
        pending[k].1,
        true,
    ) by {
        if deferred.contains(pending[k]) {
            let at = choose|at: int| 0 <= at < deferred.len() && deferred[at] == pending[k];
            assert(is_expanded(scene, partners, deferred[at].0, deferred[at].1, true));
        }
    }
}

/// Recovered pairs share no end.
proof fn lemma_recovered_apart(
    scene: Scene<'_>,
    links: ContextLinks,
    before_unit: int,
    after_unit: int,
    recovered: Seq<Recovered>,
)
    requires
        recovery_ok(scene, links, before_unit, after_unit, recovered),
    ensures
        forall|k: int, l: int|
            0 <= k < l < recovered.len() ==> (#[trigger] recovered[k]).before != (
            #[trigger] recovered[l]).before && recovered[k].after != recovered[l].after,
        forall|k: int|
            0 <= k < recovered.len() ==> links.partners.before@[(
            #[trigger] recovered[k]).before as int] is None
                && links.partners.after@[recovered[k].after as int] is None,
{
    let edges = recovered_edges(recovered);
    assert forall|k: int| 0 <= k < recovered.len() implies is_confident(
        scene,
        links,
        before_unit,
        after_unit,
        (#[trigger] recovered[k]).before as int,
        recovered[k].after as int,
    ) by {
        assert(edges[k].before == recovered[k].before);
    }
    assert forall|k: int, l: int| 0 <= k < l < recovered.len() implies (
    #[trigger] recovered[k]).before != (#[trigger] recovered[l]).before && recovered[k].after
        != recovered[l].after by {
        assert(edges[k].before < edges[l].before);
        assert(is_confident(
            scene,
            links,
            before_unit,
            after_unit,
            recovered[k].before as int,
            recovered[k].after as int,
        ));
        assert(is_confident(
            scene,
            links,
            before_unit,
            after_unit,
            recovered[l].before as int,
            recovered[l].after as int,
        ));
    }
}

/// One-to-one partners are determined by one side.
proof fn lemma_same_partners(left: Partners, right: Partners)
    requires
        left.before@ == right.before@,
        left.after@.len() == right.after@.len(),
        mutual(left.before@, left.after@),
        mutual(right.before@, right.after@),
    ensures
        left.after@ == right.after@,
{
    assert(left.after.len() <= usize::MAX && left.before.len() <= usize::MAX);
    assert forall|j: int| 0 <= j < left.after@.len() implies left.after@[j] == right.after@[j] by {
        if let Some(i) = left.after@[j] {
            assert(left.before@[i as int] == Some(j as usize));
            assert(right.before@[i as int] == Some(j as usize));
            assert(right.after@[j] == Some(i));
        } else if let Some(i) = right.after@[j] {
            assert(right.before@[i as int] == Some(j as usize));
            assert(left.before@[i as int] == Some(j as usize));
            assert(left.after@[j] == Some(i));
        }
    }
    assert(left.after@ =~= right.after@);
}

/// Confidence depends on the partners alone.
proof fn lemma_same_confidence(
    scene: Scene<'_>,
    left: ContextLinks,
    right: ContextLinks,
    before_unit: int,
    after_unit: int,
    before: int,
    after: int,
)
    requires
        left.partners.before@ == right.partners.before@,
        left.partners.after@ == right.partners.after@,
        is_confident(scene, left, before_unit, after_unit, before, after),
    ensures
        is_confident(scene, right, before_unit, after_unit, before, after),
{
    assert forall|b: int, a: int| recovery_score(scene, left, b, a) == #[trigger] recovery_score(
        scene,
        right,
        b,
        a,
    ) by {}
}

/// Number of linked before nodes.
spec fn linked_count(partner: Seq<Option<usize>>) -> nat
    decreases partner.len(),
{
    if partner.len() == 0 {
        0
    } else {
        linked_count(partner.drop_last()) + if partner.last() is Some {
            1nat
        } else {
            0
        }
    }
}

/// Dropping partners never raises the count, and dropping one lowers it.
proof fn lemma_linked_count(earlier: Seq<Option<usize>>, later: Seq<Option<usize>>)
    requires
        earlier.len() == later.len(),
        forall|i: int|
            0 <= i < later.len() ==> (#[trigger] later[i]) is None || later[i] == earlier[i],
    ensures
        linked_count(later) <= linked_count(earlier),
        later != earlier ==> linked_count(later) < linked_count(earlier),
    decreases earlier.len(),
{
    if earlier.len() > 0 {
        let last = earlier.len() - 1;
        assert forall|i: int| 0 <= i < later.drop_last().len() implies (
        #[trigger] later.drop_last()[i]) is None || later.drop_last()[i]
            == earlier.drop_last()[i] by {
            assert(later[i] is None || later[i] == earlier[i]);
        }
        lemma_linked_count(earlier.drop_last(), later.drop_last());
        assert(later[last] is None || later[last] == earlier[last]);
        if later.drop_last() == earlier.drop_last() && later[last] == earlier[last] {
            assert(later =~= later.drop_last().push(later[last]));
            assert(earlier =~= earlier.drop_last().push(earlier[last]));
        }
    } else {
        assert(later =~= earlier);
    }
}

/// Revalidate parent matches against the final graph and refresh their wrapper evidence.
fn retain_valid_context_links(
    scene: &Scene<'_>,
    before_unit: NodeId,
    after_unit: NodeId,
    links: &mut ContextLinks,
)
    requires
        scene.wf(),
        old(links).wf(scene.before_len(), scene.after_len()),
        before_unit < scene.before_len(),
        after_unit < scene.after_len(),
    ensures
        final(links).wf(scene.before_len(), scene.after_len()),
        links_supported(*scene, *final(links), before_unit as int, after_unit as int),
        forall|i: int|
            0 <= i < scene.before_len() ==> (#[trigger] final(links).partners.before@[i]) is None
                || final(links).partners.before@[i] == old(links).partners.before@[i],
        old(links).partners.before@[before_unit as int] == Some(after_unit) ==> unit_linked(
            *scene,
            *final(links),
            before_unit,
            after_unit,
        ),
        wrappers_fresh(
            *scene,
            *final(links),
            before_unit as int,
            after_unit as int,
            scene.before_len(),
        ),
        exists|rounds: Seq<Partners>| #[trigger]
            are_rounds(*scene, before_unit as int, after_unit as int, rounds) && rounds[0] == old(
                links,
            ).partners && rounds.last() == final(links).partners,
        final(links).placement@ == old(links).placement@,
{
    let ghost mut rounds: Seq<Partners> = seq![links.partners];
    let ghost first = links.partners;
    let ghost original = links.partners.before@;
    let ghost places = links.placement@;
    let mut changed: bool = true;
    while changed
        invariant
            scene.wf(),
            links.wf(scene.before_len(), scene.after_len()),
            before_unit < scene.before_len(),
            after_unit < scene.after_len(),
            !changed ==> links_supported(
                *scene,
                *links,
                before_unit as int,
                after_unit as int,
            ),
            original.len() == scene.before_len(),
            original[before_unit as int] == Some(after_unit) ==> unit_linked(
                *scene,
                *links,
                before_unit,
                after_unit,
            ),
            forall|i: int|
                0 <= i < scene.before_len() ==> (#[trigger] links.partners.before@[i]) is None
                    || links.partners.before@[i] == original[i],
            are_rounds(*scene, before_unit as int, after_unit as int, rounds),
            rounds[0] == first,
            rounds.last() == links.partners,
            links.placement@ == places,
        decreases
                linked_count(links.partners.before@),
                if changed {
                    1int
                } else {
                    0int
                },
    {
        let invalid = unsupported_links(scene, before_unit, after_unit, links);
        changed = invalid.len() > 0;
        let ghost start_links = *links;
        let ghost start = links.partners.before@;
        assert(links.partners.before.len() <= usize::MAX);
        let mut index: usize = 0;
        while index < invalid.len()
            invariant
                scene.wf(),
                links.wf(scene.before_len(), scene.after_len()),
                index <= invalid@.len(),
                links.placement@ == places,
                forall|k: int|
                    0 <= k < invalid@.len() ==> (#[trigger] invalid@[k]) < scene.before_len(),
                forall|k: int|
                    index <= k < invalid@.len() ==> links.partners.before@[(
                    #[trigger] invalid@[k]) as int] == start[invalid@[k] as int],
                forall|k: int, l: int|
                    0 <= k < l < invalid@.len() ==> (#[trigger] invalid@[k]) < (
                    #[trigger] invalid@[l]),
                start.len() == scene.before_len(),
                original.len() == scene.before_len(),
                forall|i: int|
                    0 <= i < scene.before_len() ==> (#[trigger] links.partners.before@[i]) is None
                        || links.partners.before@[i] == start[i],
                forall|i: int|
                    0 <= i < scene.before_len() ==> (#[trigger] links.partners.before@[i]) is None
                        || links.partners.before@[i] == original[i],
                index > 0 ==> links.partners.before@[invalid@[0] as int] is None,
                forall|k: int|
                    0 <= k < index ==> links.partners.before@[(
                    #[trigger] invalid@[k]) as int] is None,
                forall|i: int|
                    0 <= i < scene.before_len() && !invalid@.contains(i as usize) ==> (
                    #[trigger] links.partners.before@[i]) == start[i],
                scene.before_len() <= usize::MAX,
                index == 0 ==> *links == start_links,
                start == start_links.partners.before@,
                before_unit < scene.before_len(),
                forall|k: int|
                    0 <= k < invalid@.len() && (#[trigger] invalid@[k]) == before_unit
                        && start[before_unit as int] == Some(after_unit)
                        ==> scene.before.symbols@[before_unit as int].slot
                        != scene.after.symbols@[after_unit as int].slot,
                original[before_unit as int] == Some(after_unit) ==> unit_linked(
                    *scene,
                    *links,
                    before_unit,
                    after_unit,
                ),
                original[before_unit as int] == Some(after_unit) ==> unit_linked(
                    *scene,
                    start_links,
                    before_unit,
                    after_unit,
                ),
            decreases invalid@.len() - index,
        {
            let before = invalid[index];
            let ghost earlier = *links;
            proof {
                assert(invalid@[index as int] == before);
                assert(invalid@.contains(before));
            }
            if let Some(after) = links.partners.before[before] {
                links.partners.before.set(before, None);
                links.partners.after.set(after, None);
                proof {
                    assert(mutual(earlier.partners.before@, earlier.partners.after@));
                    assert forall|i: int| 0 <= i < links.partners.before@.len() implies ((
                    #[trigger] links.partners.before@[i]) matches Some(j) ==> j
                        < links.partners.after@.len() && links.partners.after@[j as int] == Some(
                        i as usize,
                    )) by {
                        if i != before && earlier.partners.before@[i] == Some(after) {
                            assert(earlier.partners.after@[after as int] == Some(i as usize));
                        }
                    }
                    assert forall|j: int| 0 <= j < links.partners.after@.len() implies ((
                    #[trigger] links.partners.after@[j]) matches Some(i) ==> i
                        < links.partners.before@.len() && links.partners.before@[i as int] == Some(
                        j as usize,
                    )) by {
                        if j != after && earlier.partners.after@[j] == Some(before) {
                            assert(earlier.partners.before@[before as int] == Some(j as usize));
                        }
                    }
                }
            }
            index += 1;
        }
        proof {
            let next = links.partners;
            assert forall|i: int| 0 <= i < scene.before_len() implies (
            #[trigger] next.before@[i]) == if is_supported(
                *scene,
                start_links.partners,
                before_unit as int,
                after_unit as int,
                i,
            ) {
                start_links.partners.before@[i]
            } else {
                None
            } by {
                if invalid@.contains(i as usize) {
                    let k = choose|k: int| 0 <= k < invalid@.len() && invalid@[k] == i as usize;
                    assert(links.partners.before@[invalid@[k] as int] is None);
                    assert(!is_supported(
                        *scene,
                        start_links.partners,
                        before_unit as int,
                        after_unit as int,
                        invalid@[k] as int,
                    ));
                } else {
                    assert(is_supported(
                        *scene,
                        start_links.partners,
                        before_unit as int,
                        after_unit as int,
                        i,
                    ));
                }
            }
            let longer = rounds.push(next);
            assert forall|k: int| 0 <= k < longer.len() - 1 implies keeps_supported(
                *scene,
                before_unit as int,
                after_unit as int,
                #[trigger] longer[k],
                longer[k + 1],
            ) by {
                if k < rounds.len() - 1 {
                    assert(longer[k] == rounds[k] && longer[k + 1] == rounds[k + 1]);
                } else {
                    assert(longer[k] == start_links.partners && longer[k + 1] == next);
                }
            }
            rounds = longer;
            lemma_linked_count(start, links.partners.before@);
            if invalid@.len() > 0 {
                let first = invalid@[0] as int;
                assert(start[first] is Some);
                assert(links.partners.before@[first] is None);
                assert(links.partners.before@ != start);
            }
        }
    }
    refresh_wrappers(scene, before_unit, after_unit, links);
}

/// Linked nodes whose parents are neither linked nor explained by a wrapper.
fn unsupported_links(
    scene: &Scene<'_>,
    before_unit: NodeId,
    after_unit: NodeId,
    links: &ContextLinks,
) -> (invalid: Vec<NodeId>)
    requires
        scene.wf(),
        links.wf(scene.before_len(), scene.after_len()),
        before_unit < scene.before_len(),
        after_unit < scene.after_len(),
    ensures
        forall|k: int|
            0 <= k < invalid@.len() ==> (#[trigger] invalid@[k]) < scene.before_len()
                && links.partners.before@[invalid@[k] as int] is Some && !parents_linked(
                *scene,
                links.partners.before@,
                before_unit as int,
                after_unit as int,
                invalid@[k] as int,
                links.partners.before@[invalid@[k] as int]->0 as int,
            ),
        forall|k: int|
            0 <= k < invalid@.len() ==> !is_supported(
                *scene,
                links.partners,
                before_unit as int,
                after_unit as int,
                (#[trigger] invalid@[k]) as int,
            ),
        forall|i: int|
            0 <= i < scene.before_len() && !invalid@.contains(i as usize) ==> #[trigger] is_supported(
                *scene,
                links.partners,
                before_unit as int,
                after_unit as int,
                i,
            ),
        forall|k: int, l: int|
            0 <= k < l < invalid@.len() ==> (#[trigger] invalid@[k]) < (#[trigger] invalid@[l]),
        invalid@.len() == 0 ==> links_supported(
            *scene,
            *links,
            before_unit as int,
            after_unit as int,
        ),
{
    let mut invalid: Vec<NodeId> = Vec::new();
    let context = UnitContext { scene: *scene, links, before_unit, after_unit };
    let mut index: usize = 0;
    while index < links.partners.before.len()
        invariant
            context.wf(),
            context.scene == *scene,
            context.links == links,
            context.before_unit == before_unit,
            context.after_unit == after_unit,
            index <= scene.before_len(),
            forall|k: int|
                0 <= k < invalid@.len() ==> (#[trigger] invalid@[k]) < index
                    && links.partners.before@[invalid@[k] as int] is Some && !parents_linked(
                    *scene,
                    links.partners.before@,
                    before_unit as int,
                    after_unit as int,
                    invalid@[k] as int,
                    links.partners.before@[invalid@[k] as int]->0 as int,
                ),
            forall|k: int|
                0 <= k < invalid@.len() ==> !is_supported(
                    *scene,
                    links.partners,
                    before_unit as int,
                    after_unit as int,
                    (#[trigger] invalid@[k]) as int,
                ),
            forall|i: int|
                0 <= i < index && !invalid@.contains(i as usize) ==> #[trigger] is_supported(
                    *scene,
                    links.partners,
                    before_unit as int,
                    after_unit as int,
                    i,
                ),
            forall|k: int, l: int|
                0 <= k < l < invalid@.len() ==> (#[trigger] invalid@[k]) < (#[trigger] invalid@[l]),
            invalid@.len() == 0 ==> forall|i: int|
                0 <= i < index ==> ((#[trigger] links.partners.before@[i]) matches Some(j)
                    ==> parents_linked(
                    *scene,
                    links.partners.before@,
                    before_unit as int,
                    after_unit as int,
                    i,
                    j as int,
                ) || reparenting_of(
                    *scene.pair,
                    links.partners.before@,
                    links.partners.after@,
                    i,
                    j as int,
                ) is Some),
        decreases scene.before_len() - index,
    {
        let ghost fewer = invalid@;
        if let Some(after) = links.partners.before[index] {
            assert(links.partners.before@[index as int] == Some(after));
            if !context.parents_are_linked(index, after) && unique_containment_reparenting(
                scene.pair,
                &links.partners.before,
                &links.partners.after,
                index,
                after,
            ).is_none() {
                invalid.push(index);
                assert(invalid@[fewer.len() as int] == index);
            }
        }
        proof {
            assert forall|i: int|
                0 <= i < index + 1 && !invalid@.contains(i as usize) implies #[trigger] is_supported(
                *scene,
                links.partners,
                before_unit as int,
                after_unit as int,
                i,
            ) by {
                if i < index && fewer.contains(i as usize) {
                    let k = choose|k: int| 0 <= k < fewer.len() && fewer[k] == i as usize;
                    assert(invalid@[k] == i as usize);
                }
            }
        }
        index += 1;
    }
    invalid
}

/// Recompute wrapper evidence from parents to children, so that no descendant keeps a
/// removed proof.
fn refresh_wrappers(
    scene: &Scene<'_>,
    before_unit: NodeId,
    after_unit: NodeId,
    links: &mut ContextLinks,
)
    requires
        scene.wf(),
        old(links).wf(scene.before_len(), scene.after_len()),
        before_unit < scene.before_len(),
        after_unit < scene.after_len(),
    ensures
        final(links).wf(scene.before_len(), scene.after_len()),
        final(links).partners == old(links).partners,
        final(links).placement@ == old(links).placement@,
        wrappers_fresh(
            *scene,
            *final(links),
            before_unit as int,
            after_unit as int,
            scene.before_len(),
        ),
{
    let ghost partners = links.partners;
    let ghost places = links.placement@;
    let mut reset: usize = 0;
    while reset < links.reparenting.len()
        invariant
            reset <= links.reparenting@.len(),
            links.partners == partners,
            links.placement@ == places,
            links.wf(scene.before_len(), scene.after_len()),
            forall|i: int| 0 <= i < reset ==> (#[trigger] links.reparenting@[i]) is None,
        decreases links.reparenting@.len() - reset,
    {
        links.reparenting.set(reset, None);
        reset += 1;
    }
    let mut index: usize = 0;
    while index < links.partners.before.len()
        invariant
            scene.wf(),
            before_unit < scene.before_len(),
            after_unit < scene.after_len(),
            links.partners == partners,
            links.placement@ == places,
            links.wf(scene.before_len(), scene.after_len()),
            index <= scene.before_len(),
            forall|i: int|
                index <= i < scene.before_len() ==> (#[trigger] links.reparenting@[i]) is None,
            wrappers_fresh(*scene, *links, before_unit as int, after_unit as int, index as int),
        decreases scene.before_len() - index,
    {
        let ghost earlier = *links;
        if let Some(after) = links.partners.before[index] {
            assert(links.partners.before@[index as int] == Some(after));
            let context = UnitContext { scene: *scene, links: &*links, before_unit, after_unit };
            let direct = context.parents_are_linked(index, after);
            assert(parent_holds(scene.pair.before.nodes@, index as int));
            let reparenting = if direct {
                match scene.pair.before.nodes[index].parent {
                    Some(parent) => if links.partners.before[parent].is_some() {
                        links.reparenting[parent]
                    } else {
                        None
                    },
                    None => None,
                }
            } else {
                unique_containment_reparenting(
                    scene.pair,
                    &links.partners.before,
                    &links.partners.after,
                    index,
                    after,
                )
            };
            links.reparenting.set(index, reparenting);
        }
        proof {
            assert(parent_holds(scene.pair.before.nodes@, index as int));
            assert forall|i: int| 0 <= i < index implies (#[trigger] links.reparenting@[i])
                == earlier.reparenting@[i] && parent_holds(scene.pair.before.nodes@, i) by {
                assert(parent_holds(scene.pair.before.nodes@, i));
            }
        }
        index += 1;
    }
}

} // verus!

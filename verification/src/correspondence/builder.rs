//! Link the contents of matched units and lay out the unit script.

use crate::alignment::OrderedMatch;
use crate::correspondence::contexts::{
    parents_linked, reparenting_of, unique_containment_reparenting, ContextLinks, Scene,
    UnitContext,
};
use crate::correspondence::evidence::{match_placements, places_longest};
use crate::correspondence::leaves::{
    desired_parent_code, edited_leaf_matches, exact_leaf_matches, is_placed, leaves_exhausted,
    edits_matched, parent_code, partners_placed, prints_agree, steps_match_leaves, sure_leaves, Claimed,
};
use crate::correspondence::links::{
    LeafLink, LeafRelation, NodeLink, ParentCorrespondence, Placement, Reparenting, ScopeLink,
};
use crate::correspondence::partners::{
    free_at, indices_below, is_taken, keeps, lemma_spread_apart, mutual, nothing, repeated, spread,
    Partners,
};
use crate::correspondence::recovery::{
    are_unit_matches, contextual_links, links_supported, unit_linked,
};
use crate::correspondence::tree::{composites_fit, LeafCorrespondence, ScopeTable};
use crate::correspondence::units::lemma_kept_listed;
use crate::syntax::{node_fits, parent_holds, CorrespondenceRole, NodeId, SyntaxTree};
use vstd::prelude::*;

verus! {

/// Exact links join leaves with the same content fingerprint.
pub open spec fn exact_links_agree(scene: Scene<'_>, links: Seq<LeafLink>) -> bool {
    forall|k: int|
        0 <= k < links.len() && (#[trigger] links[k]).relation == LeafRelation::Exact
            ==> scene.before.prints@[links[k].before as int].full
            == scene.after.prints@[links[k].after as int].full
}

/// Exact subtrees share their content fingerprint.
pub open spec fn composites_agree(scene: Scene<'_>, links: Seq<NodeLink>) -> bool {
    forall|k: int|
        0 <= k < links.len() ==> scene.before.prints@[(#[trigger] links[k]).before as int].full
            == scene.after.prints@[links[k].after as int].full
}

/// The scope link of the two roots.
pub open spec fn root_scope() -> ScopeLink {
    ScopeLink {
        before: 0,
        after: 0,
        placement: Placement::Stable,
        parent: ParentCorrespondence::Direct,
    }
}

/// Links collected so far.
pub struct Builder {
    pub leaves: LeafCorrespondence,
    pub composites: Vec<NodeLink>,
    pub scopes: ScopeTable,
}

impl Builder {
    /// The links fit both trees, and exact ones join equal content.
    pub open spec fn wf(self, scene: Scene<'_>) -> bool {
        &&& self.leaves.wf()
        &&& self.leaves.before@.len() == scene.before_len()
        &&& self.leaves.after@.len() == scene.after_len()
        &&& exact_links_agree(scene, self.leaves.links@)
        &&& composites_fit(self.composites@, scene.before_len(), scene.after_len())
        &&& composites_agree(scene, self.composites@)
        &&& self.scopes.wf()
        &&& self.scopes.before@.len() == scene.before_len()
        &&& self.scopes.after@.len() == scene.after_len()
    }

    /// Links are only added behind the earlier ones, and every linked leaf stays linked as it was.
    pub open spec fn grows(self, earlier: Builder) -> bool {
        &&& self.leaves.links@.len() >= earlier.leaves.links@.len()
        &&& self.composites@.len() >= earlier.composites@.len()
        &&& forall|k: int|
            0 <= k < earlier.leaves.links@.len() ==> (#[trigger] self.leaves.links@[k])
                == earlier.leaves.links@[k]
        &&& forall|k: int|
            0 <= k < earlier.composites@.len() ==> (#[trigger] self.composites@[k])
                == earlier.composites@[k]
        &&& keeps(self.leaves.before@, earlier.leaves.before@)
        &&& keeps(self.leaves.after@, earlier.leaves.after@)
        &&& self.scopes.links@.len() >= earlier.scopes.links@.len()
        &&& forall|k: int|
            0 <= k < earlier.scopes.links@.len() ==> (#[trigger] self.scopes.links@[k])
                == earlier.scopes.links@[k]
    }

    /// Nothing linked but the roots.
    pub fn new(scene: &Scene<'_>) -> (builder: Builder)
        requires
            scene.wf(),
        ensures
            builder.wf(*scene),
            builder.leaves.links@.len() == 0,
            builder.composites@.len() == 0,
            builder.scopes.links@ == (if scene.before_len() > 0 && scene.after_len() > 0 {
                seq![root_scope()]
            } else {
                Seq::empty()
            }),
    {
        let before_len = scene.pair.before.nodes.len();
        let after_len = scene.pair.after.nodes.len();
        let mut scopes = ScopeTable::new(before_len, after_len);
        if before_len > 0 && after_len > 0 {
            let linked = scopes.push_scope_link(
                ScopeLink {
                    before: 0,
                    after: 0,
                    placement: Placement::Stable,
                    parent: ParentCorrespondence::Direct,
                },
            );
        }
        assert(scopes.links@ =~= (if scene.before_len() > 0 && scene.after_len() > 0 {
            seq![root_scope()]
        } else {
            Seq::empty()
        }));
        Builder {
            leaves: LeafCorrespondence::new(before_len, after_len),
            composites: Vec::new(),
            scopes,
        }
    }

    /// Claim a leaf pair.
    fn push_leaf(&mut self, scene: &Scene<'_>, link: LeafLink)
        requires
            old(self).wf(*scene),
            link.before < scene.before_len(),
            link.after < scene.after_len(),
            link.relation == LeafRelation::Exact
                ==> scene.before.prints@[link.before as int].full
                == scene.after.prints@[link.after as int].full,
        ensures
            final(self).wf(*scene),
            final(self).grows(*old(self)),
            final(self).composites == old(self).composites,
            final(self).scopes == old(self).scopes,
            final(self).leaves.links@ == if is_open_pair(old(self).leaves, link) {
                old(self).leaves.links@.push(link)
            } else {
                old(self).leaves.links@
            },
            final(self).leaves.before@ == if is_open_pair(old(self).leaves, link) {
                old(self).leaves.before@.update(
                    link.before as int,
                    Some(old(self).leaves.links@.len() as usize),
                )
            } else {
                old(self).leaves.before@
            },
            final(self).leaves.after@ == if is_open_pair(old(self).leaves, link) {
                old(self).leaves.after@.update(
                    link.after as int,
                    Some(old(self).leaves.links@.len() as usize),
                )
            } else {
                old(self).leaves.after@
            },
    {
        let ghost earlier = self.leaves.links@;
        let accepted = self.leaves.push_leaf_link(link);
        proof {
            assert forall|k: int|
                0 <= k < self.leaves.links@.len() && (#[trigger] self.leaves.links@[k]).relation
                    == LeafRelation::Exact implies scene.before.prints@[self.leaves.links@[k].before as int].full
                == scene.after.prints@[self.leaves.links@[k].after as int].full by {
                if k < earlier.len() {
                    assert(self.leaves.links@[k] == earlier[k]);
                }
            }
        }
    }

    /// Claim a container pair.
    fn push_scope(&mut self, scene: &Scene<'_>, link: ScopeLink) -> (accepted: bool)
        requires
            old(self).wf(*scene),
            link.before < scene.before_len(),
            link.after < scene.after_len(),
        ensures
            final(self).wf(*scene),
            final(self).grows(*old(self)),
            final(self).composites == old(self).composites,
            final(self).leaves == old(self).leaves,
            accepted <==> final(self).scopes.links@.contains(link),
            !accepted ==> final(self).scopes.before@[link.before as int] is Some
                || final(self).scopes.after@[link.after as int] is Some,
    {
        self.scopes.push_scope_link(link)
    }

    /// Link the leaves and containers of two subtrees with equal content.
    ///
    /// Content nodes of both subtrees correspond in preorder. Equal text cannot override a
    /// conflicting scope match: the contents of such a container stay unlinked.
    #[verifier::rlimit(60)]
    #[verifier::spinoff_prover]
    fn link_exact_subtree(&mut self, scene: &Scene<'_>, root: NodeLink)
        requires
            scene.wf(),
            old(self).wf(*scene),
            root.before < scene.before_len(),
            root.after < scene.after_len(),
        ensures
            final(self).wf(*scene),
            final(self).grows(*old(self)),
            final(self).composites == old(self).composites,
            forall|k: int|
                old(self).leaves.links@.len() <= k < final(self).leaves.links@.len()
                    ==> is_subtree_leaf(*scene, root, #[trigger] final(self).leaves.links@[k]),
            subtree_linked(*scene, root, *final(self)),
    {
        let before_tree = &scene.pair.before;
        let after_tree = &scene.pair.after;
        proof {
            lemma_subtree_fits(*before_tree, root.before as int);
            lemma_subtree_fits(*after_tree, root.after as int);
        }
        let before_end = before_tree.nodes[root.before].subtree_end;
        let after_end = after_tree.nodes[root.after].subtree_end;
        let mut left = root.before;
        let mut right = root.after;
        let ghost start = *self;
        let ghost mut stopped = false;
        while left < before_end && right < after_end
            invariant
                scene.wf(),
                before_tree == &scene.pair.before,
                after_tree == &scene.pair.after,
                self.wf(*scene),
                self.grows(start),
                self.composites == start.composites,
                before_end <= scene.before_len(),
                after_end <= scene.after_len(),
                left <= scene.before_len(),
                right <= scene.after_len(),
                start == *old(self),
                root.before < scene.before_len(),
                root.after < scene.after_len(),
                before_end == before_tree.nodes@[root.before as int].subtree_end,
                after_end == after_tree.nodes@[root.after as int].subtree_end,
                root.before <= left,
                root.after <= right,
                forall|k: int|
                    start.leaves.links@.len() <= k < self.leaves.links@.len() ==> is_subtree_leaf(
                        *scene,
                        root,
                        #[trigger] self.leaves.links@[k],
                    ),
                !stopped ==> content_count(*before_tree, root.before as int, left as int)
                    == content_count(*after_tree, root.after as int, right as int),
                !stopped ==> forall|b: int, a: int|
                    b < left && #[trigger] is_walk_pair(
                        *scene,
                        root.before as int,
                        root.after as int,
                        b,
                        a,
                    ) && scene.pair.before.nodes@[b].leaf is Some && is_clear_to(
                        *scene,
                        root,
                        self.scopes.links@,
                        b,
                    ) ==> self.leaves.before@[b] is Some || self.leaves.after@[a] is Some,
                stopped ==> subtree_linked(*scene, root, *self),
            decreases (scene.before_len() - left) + (scene.after_len() - right),
        {
            proof {
                lemma_subtree_fits(*before_tree, left as int);
                lemma_subtree_fits(*after_tree, right as int);
            }
            let before_node = &before_tree.nodes[left];
            let after_node = &after_tree.nodes[right];
            let ghost at = left as int;
            let ghost across = right as int;
            let ghost earlier = *self;
            if before_node.layout_leaf() {
                left += 1;
            } else if after_node.layout_leaf() {
                right += 1;
            } else if before_node.leaf.is_some() != after_node.leaf.is_some()
                || scene.before.prints[left].full != scene.after.prints[right].full {
                proof {
                    if !stopped {
                        assert(is_walk_pair(
                            *scene,
                            root.before as int,
                            root.after as int,
                            at,
                            across,
                        ));
                        assert(is_walk_stop(*scene, root, self.scopes.links@, at, across));
                    }
                }
                return ;
            } else if before_node.leaf.is_some() {
                self.push_leaf(
                    scene,
                    LeafLink {
                        before: left,
                        after: right,
                        relation: LeafRelation::Exact,
                        placement: root.placement,
                        parent: ParentCorrespondence::Direct,
                        wrapper: root.wrapper,
                    },
                );
                left += 1;
                right += 1;
                proof {
                    if stopped {
                        lemma_subtree_kept(*scene, root, earlier, *self);
                    } else {
                        assert(is_walk_pair(
                            *scene,
                            root.before as int,
                            root.after as int,
                            at,
                            across,
                        ));
                        assert(self.leaves.before@[at] is Some || self.leaves.after@[across] is Some);
                        assert forall|b: int, a: int|
                            b < left && #[trigger] is_walk_pair(
                                *scene,
                                root.before as int,
                                root.after as int,
                                b,
                                a,
                            ) && scene.pair.before.nodes@[b].leaf is Some && is_clear_to(
                                *scene,
                                root,
                                self.scopes.links@,
                                b,
                            ) implies self.leaves.before@[b] is Some
                            || self.leaves.after@[a] is Some by {
                            if b == at {
                                lemma_walk_step(
                                    *scene,
                                    root.before as int,
                                    root.after as int,
                                    at,
                                    across,
                                    a,
                                );
                            } else {
                                assert(earlier.leaves.before@[b] is Some
                                    || earlier.leaves.after@[a] is Some);
                            }
                        }
                    }
                }
            } else {
                let accepted = if before_node.is_scope_boundary() && after_node.is_scope_boundary() {
                    let parent = if left == root.before {
                        root.parent
                    } else {
                        ParentCorrespondence::Direct
                    };
                    self.push_scope(
                        scene,
                        ScopeLink { before: left, after: right, placement: root.placement, parent },
                    )
                } else {
                    true
                };
                proof {
                    if stopped {
                        lemma_subtree_kept(*scene, root, earlier, *self);
                    } else {
                        assert(is_walk_pair(
                            *scene,
                            root.before as int,
                            root.after as int,
                            at,
                            across,
                        ));
                        assert forall|b: int, a: int|
                            b <= at && #[trigger] is_walk_pair(
                                *scene,
                                root.before as int,
                                root.after as int,
                                b,
                                a,
                            ) && scene.pair.before.nodes@[b].leaf is Some && is_clear_to(
                                *scene,
                                root,
                                self.scopes.links@,
                                b,
                            ) implies self.leaves.before@[b] is Some
                            || self.leaves.after@[a] is Some by {
                            lemma_clear_kept(
                                *scene,
                                root,
                                earlier.scopes.links@,
                                self.scopes.links@,
                                b,
                            );
                        }
                        if !accepted {
                            let link = subtree_scope(root, at, across);
                            assert(!self.scopes.links@.contains(link));
                            assert(is_refused(self.scopes.links@, link)) by {
                                lemma_refused(self.scopes, link);
                            }
                            assert(is_walk_stop(*scene, root, self.scopes.links@, at, across));
                            stopped = true;
                            assert(subtree_linked(*scene, root, *self));
                        }
                    }
                }
                if accepted {
                    left += 1;
                    right += 1;
                } else {
                    left = before_node.subtree_end;
                    right = after_node.subtree_end;
                }
            }
        }
        proof {
            if !stopped {
                assert forall|b: int, a: int|
                    #[trigger] is_walk_pair(*scene, root.before as int, root.after as int, b, a)
                        && scene.pair.before.nodes@[b].leaf is Some && is_clear_to(
                        *scene,
                        root,
                        self.scopes.links@,
                        b,
                    ) implies self.leaves.before@[b] is Some || self.leaves.after@[a] is Some by {
                    lemma_walk_end(
                        *scene,
                        root.before as int,
                        root.after as int,
                        left as int,
                        right as int,
                        b,
                        a,
                    );
                }
            }
        }
    }
}

/// Nodes of an arena range that are not layout.
pub open spec fn content_count(tree: SyntaxTree, start: int, end: int) -> nat
    decreases end - start,
{
    if end <= start {
        0
    } else {
        content_count(tree, start, end - 1) + if tree.nodes@[end - 1].is_layout() {
            0nat
        } else {
            1nat
        }
    }
}

/// Two nodes that hold the same place among the content nodes of two subtrees.
pub open spec fn is_walk_pair(
    scene: Scene<'_>,
    before_root: int,
    after_root: int,
    before: int,
    after: int,
) -> bool {
    &&& scene.pair.before.in_subtree(before_root, before)
    &&& scene.pair.after.in_subtree(after_root, after)
    &&& !scene.pair.before.nodes@[before].is_layout()
    &&& !scene.pair.after.nodes@[after].is_layout()
    &&& content_count(scene.pair.before, before_root, before) == content_count(
        scene.pair.after,
        after_root,
        after,
    )
}

/// Counting further never counts less, and a content node counts.
proof fn lemma_count_grows(tree: SyntaxTree, start: int, low: int, high: int)
    requires
        start <= low <= high,
    ensures
        content_count(tree, start, low) <= content_count(tree, start, high),
        low < high && !tree.nodes@[low].is_layout() ==> content_count(tree, start, low)
            < content_count(tree, start, high),
    decreases high - low,
{
    if low < high {
        lemma_count_grows(tree, start, low, high - 1);
    }
}

/// Where both walks have counted as far, the next content nodes pair with nothing else.
proof fn lemma_walk_step(
    scene: Scene<'_>,
    before_root: int,
    after_root: int,
    left: int,
    right: int,
    after: int,
)
    requires
        is_walk_pair(scene, before_root, after_root, left, right),
        is_walk_pair(scene, before_root, after_root, left, after),
    ensures
        after == right,
{
    if after < right {
        lemma_count_grows(scene.pair.after, after_root, after, right);
    } else if right < after {
        lemma_count_grows(scene.pair.after, after_root, right, after);
    }
}

/// Where one walk has ended, nothing behind the other pairs.
proof fn lemma_walk_end(
    scene: Scene<'_>,
    before_root: int,
    after_root: int,
    left: int,
    right: int,
    before: int,
    after: int,
)
    requires
        before_root <= left,
        after_root <= right,
        content_count(scene.pair.before, before_root, left) == content_count(
            scene.pair.after,
            after_root,
            right,
        ),
        left >= scene.pair.before.nodes@[before_root].subtree_end || right
            >= scene.pair.after.nodes@[after_root].subtree_end,
        is_walk_pair(scene, before_root, after_root, before, after),
    ensures
        before < left,
{
    if before >= left {
        lemma_count_grows(scene.pair.before, before_root, left, before);
        lemma_count_grows(scene.pair.after, after_root, after, right);
    }
}

/// A leaf link that an exact subtree brings.
pub open spec fn is_subtree_leaf(scene: Scene<'_>, root: NodeLink, link: LeafLink) -> bool {
    &&& scene.pair.before.in_subtree(root.before as int, link.before as int)
    &&& scene.pair.after.in_subtree(root.after as int, link.after as int)
    &&& scene.pair.before.nodes@[link.before as int].is_content_leaf()
    &&& scene.pair.after.nodes@[link.after as int].is_content_leaf()
    &&& scene.before.prints@[link.before as int].full == scene.after.prints@[link.after as int].full
    &&& link.relation == LeafRelation::Exact
    &&& link.placement == root.placement
    &&& link.parent == ParentCorrespondence::Direct
    &&& link.wrapper == root.wrapper
}

/// The scope link that an exact subtree brings for two of its containers.
pub open spec fn subtree_scope(root: NodeLink, before: int, after: int) -> ScopeLink {
    ScopeLink {
        before: before as usize,
        after: after as usize,
        placement: root.placement,
        parent: if before == root.before {
            root.parent
        } else {
            ParentCorrespondence::Direct
        },
    }
}

/// One end of the scope link belongs to another link.
pub open spec fn is_refused(links: Seq<ScopeLink>, link: ScopeLink) -> bool {
    exists|k: int|
        0 <= k < links.len() && ((#[trigger] links[k]).before == link.before || links[k].after
            == link.after) && links[k] != link
}

/// Two nodes of equal place that differ, or two containers whose link is refused.
pub open spec fn is_walk_stop(
    scene: Scene<'_>,
    root: NodeLink,
    scopes: Seq<ScopeLink>,
    before: int,
    after: int,
) -> bool {
    let left = scene.pair.before.nodes@[before];
    let right = scene.pair.after.nodes@[after];
    ||| left.leaf is Some != right.leaf is Some
    ||| scene.before.prints@[before].full != scene.after.prints@[after].full
    ||| left.leaf is None && left.correspondence == CorrespondenceRole::HardOwner && right.correspondence
        == CorrespondenceRole::HardOwner && is_refused(
        scopes,
        subtree_scope(root, before, after),
    )
}

/// Up to the node the subtrees agree, and no container is refused.
pub open spec fn is_clear_to(
    scene: Scene<'_>,
    root: NodeLink,
    scopes: Seq<ScopeLink>,
    before: int,
) -> bool {
    forall|x: int, y: int|
        x <= before && #[trigger] is_walk_pair(scene, root.before as int, root.after as int, x, y)
            ==> !is_walk_stop(scene, root, scopes, x, y)
}

/// Leaves of equal place in an exact subtree are linked, as long as no container before them is
/// refused.
pub open spec fn subtree_linked(scene: Scene<'_>, root: NodeLink, builder: Builder) -> bool {
    forall|b: int, a: int|
        #[trigger] is_walk_pair(scene, root.before as int, root.after as int, b, a)
            && scene.pair.before.nodes@[b].leaf is Some && is_clear_to(
            scene,
            root,
            builder.scopes.links@,
            b,
        ) ==> builder.leaves.before@[b] is Some || builder.leaves.after@[a] is Some
}

/// What an exact subtree has linked stays linked.
proof fn lemma_subtree_kept(scene: Scene<'_>, root: NodeLink, earlier: Builder, later: Builder)
    requires
        scene.wf(),
        later.grows(earlier),
        earlier.wf(scene),
        root.before < scene.before_len(),
        root.after < scene.after_len(),
        subtree_linked(scene, root, earlier),
    ensures
        subtree_linked(scene, root, later),
{
    lemma_subtree_fits(scene.pair.before, root.before as int);
    lemma_subtree_fits(scene.pair.after, root.after as int);
    assert forall|b: int, a: int|
        #[trigger] is_walk_pair(scene, root.before as int, root.after as int, b, a)
            && scene.pair.before.nodes@[b].leaf is Some && is_clear_to(
            scene,
            root,
            later.scopes.links@,
            b,
        ) implies later.leaves.before@[b] is Some || later.leaves.after@[a] is Some by {
        lemma_clear_kept(scene, root, earlier.scopes.links@, later.scopes.links@, b);
        assert(earlier.leaves.before@[b] is Some || earlier.leaves.after@[a] is Some);
    }
}

/// A link that a table refuses meets another one.
proof fn lemma_refused(scopes: ScopeTable, link: ScopeLink)
    requires
        scopes.wf(),
        link.before < scopes.before@.len(),
        link.after < scopes.after@.len(),
        !scopes.links@.contains(link),
        scopes.before@[link.before as int] is Some || scopes.after@[link.after as int] is Some,
    ensures
        is_refused(scopes.links@, link),
{
    match scopes.before@[link.before as int] {
        Some(k) => {
            assert(scopes.links@[k as int].before == link.before);
            assert(scopes.links@[k as int] != link);
        },
        None => {
            let k = scopes.after@[link.after as int]->0;
            assert(scopes.links@[k as int].after == link.after);
            assert(scopes.links@[k as int] != link);
        },
    }
}

/// What more links leave clear, fewer do.
proof fn lemma_clear_kept(
    scene: Scene<'_>,
    root: NodeLink,
    fewer: Seq<ScopeLink>,
    links: Seq<ScopeLink>,
    before: int,
)
    requires
        fewer.len() <= links.len(),
        forall|k: int| 0 <= k < fewer.len() ==> (#[trigger] links[k]) == fewer[k],
        is_clear_to(scene, root, links, before),
    ensures
        is_clear_to(scene, root, fewer, before),
{
    assert forall|x: int, y: int|
        x <= before && #[trigger] is_walk_pair(scene, root.before as int, root.after as int, x, y)
            implies !is_walk_stop(scene, root, fewer, x, y) by {
        let link = subtree_scope(root, x, y);
        if is_refused(fewer, link) {
            let k = choose|k: int|
                0 <= k < fewer.len() && ((#[trigger] fewer[k]).before == link.before
                    || fewer[k].after == link.after) && fewer[k] != link;
            assert(links[k] == fewer[k]);
            assert(is_refused(links, link));
        }
        assert(!is_walk_stop(scene, root, links, x, y));
    }
}

/// Neither end of the link is linked yet.
pub open spec fn is_open_pair(leaves: LeafCorrespondence, link: LeafLink) -> bool {
    leaves.before@[link.before as int] is None && leaves.after@[link.after as int] is None
}

/// A paired container of the unit already belongs to another pair.
pub open spec fn scopes_conflict(
    context: UnitContext<'_>,
    cover: Cover,
    scopes: ScopeTable,
) -> bool {
    exists|i: int|
        0 <= i < context.scene.before_len() && #[trigger] is_open_scope(context, cover, i) && (
        scopes.before@[i] is Some
            || scopes.after@[context.links.partners.before@[i]->0 as int] is Some)
}

/// Of any two leaves of the units that belong together for sure, one is linked.
pub open spec fn contents_linked(context: UnitContext<'_>, leaves: LeafCorrespondence) -> bool {
    forall|b: int, a: int|
        is_unit_leaf(context.scene.pair.before, context.before_unit as int, b) && is_unit_leaf(
            context.scene.pair.after,
            context.after_unit as int,
            a,
        ) && #[trigger] sure_leaves(context, b, a) && desired_parent_code(context, b) is Some
            ==> leaves.before@[b] is Some || leaves.after@[a] is Some
}

/// A content leaf of the unit.
pub open spec fn is_unit_leaf(tree: SyntaxTree, unit: int, id: int) -> bool {
    unit <= id < tree.nodes@[unit].subtree_end && tree.nodes@[id].is_content_leaf()
}

/// A subtree is a nonempty range of the arena.
pub proof fn lemma_subtree_fits(tree: SyntaxTree, id: int)
    requires
        tree.wf(),
        tree.has_node(id),
    ensures
        id < tree.nodes@[id].subtree_end <= tree.nodes@.len(),
{
    assert(node_fits(
        tree.nodes@[id],
        id,
        tree.nodes@.len() as int,
        tree.source.data().len() as int,
    ));
}

/// Linked composites of a unit with equal content, in before order.
fn exact_composite_matches(context: &UnitContext<'_>) -> (edges: Vec<OrderedMatch>)
    requires
        context.wf(),
    ensures
        exact_edges(*context, edges@),
        lists_exact_edges(*context, edges@),
{
    let scene = &context.scene;
    let composites = scene.pair.before.descendant_composites(context.before_unit);
    proof {
        lemma_subtree_fits(scene.pair.before, context.before_unit as int);
        lemma_subtree_fits(scene.pair.after, context.after_unit as int);
    }
    let mut edges: Vec<OrderedMatch> = Vec::new();
    let mut index: usize = 0;
    while index < composites.len()
        invariant
            context.wf(),
            scene == &context.scene,
            index <= composites@.len(),
            scene.pair.before.nodes@[context.before_unit as int].subtree_end <= scene.before_len(),
            scene.pair.before.is_composite_list(
                composites@,
                context.before_unit + 1,
                scene.pair.before.nodes@[context.before_unit as int].subtree_end as int,
            ),
            exact_edges(*context, edges@),
            forall|k: int|
                0 <= k < edges@.len() && index < composites@.len() ==> (
                #[trigger] edges@[k]).before < composites@[index as int],
            forall|k: int, a: int|
                0 <= k < index && #[trigger] is_exact_edge(*context, composites@[k] as int, a)
                    ==> edges@.contains(OrderedMatch { before: composites@[k], after: a as usize }),
        decreases composites@.len() - index,
    {
        let before = composites[index];
        assert(composites@[index as int] == before);
        let ghost fewer = edges@;
        if let Some(after) = context.links.partners.before[before] {
            assert(context.links.partners.before@[before as int] == Some(after));
            if after != context.after_unit && scene.pair.after.contains(context.after_unit, after)
                && scene.pair.after.nodes[after].composite() && scene.before.prints[before].full
                == scene.after.prints[after].full {
                edges.push(OrderedMatch { before, after });
            }
        }
        proof {
            if index + 1 < composites@.len() {
                assert(composites@[index as int] < composites@[index + 1]);
            }
            assert forall|k: int, a: int|
                0 <= k < index + 1 && #[trigger] is_exact_edge(*context, composites@[k] as int, a)
                    implies edges@.contains(
                OrderedMatch { before: composites@[k], after: a as usize },
            ) by {
                let edge = OrderedMatch { before: composites@[k], after: a as usize };
                if k < index {
                    assert(fewer.contains(edge));
                    let at = choose|at: int| 0 <= at < fewer.len() && fewer[at] == edge;
                    assert(edges@[at] == edge);
                } else {
                    assert(edges@[fewer.len() as int] == edge);
                }
            }
        }
        index += 1;
    }
    proof {
        assert(scene.pair.before.nodes.len() <= usize::MAX);
        assert forall|b: int, a: int| #[trigger] is_exact_edge(*context, b, a) implies edges@.contains(
            OrderedMatch { before: b as usize, after: a as usize },
        ) by {
            assert(scene.pair.before.nodes@[b].is_composite());
            assert(composites@.contains(b as usize));
            let k = choose|k: int| 0 <= k < composites@.len() && composites@[k] == b as usize;
            assert(is_exact_edge(*context, composites@[k] as int, a));
        }
    }
    edges
}

/// The tree has no structure below its root.
pub open spec fn is_flat(tree: SyntaxTree) -> bool {
    forall|id: int| 0 < id < tree.nodes@.len() ==> !(#[trigger] tree.nodes@[id]).is_composite()
}

/// A flat tree has no exact composites.
proof fn lemma_flat_edges(context: UnitContext<'_>, edges: Seq<OrderedMatch>)
    requires
        is_flat(context.scene.pair.before),
        exact_edges(context, edges),
    ensures
        edges.len() == 0,
{
    if edges.len() > 0 {
        assert(is_exact_edge(context, edges[0].before as int, edges[0].after as int));
        assert(!context.scene.pair.before.nodes@[edges[0].before as int].is_composite());
    }
}

/// Two linked composites below the units, of equal content.
pub open spec fn is_exact_edge(context: UnitContext<'_>, before: int, after: int) -> bool {
    &&& context.before_unit < before
        < context.scene.pair.before.nodes@[context.before_unit as int].subtree_end
    &&& context.after_unit < after
        < context.scene.pair.after.nodes@[context.after_unit as int].subtree_end
    &&& context.scene.pair.before.nodes@[before].is_composite()
    &&& context.scene.pair.after.nodes@[after].is_composite()
    &&& context.links.partners.before@[before] == Some(after as usize)
    &&& context.scene.before.prints@[before].full == context.scene.after.prints@[after].full
}

/// The edges are all linked composites of equal content below the units.
pub open spec fn lists_exact_edges(context: UnitContext<'_>, edges: Seq<OrderedMatch>) -> bool {
    forall|b: int, a: int| #[trigger]
        is_exact_edge(context, b, a) ==> edges.contains(
            OrderedMatch { before: b as usize, after: a as usize },
        )
}

/// Edges join linked nodes of equal content, ascending on the before side.
pub open spec fn exact_edges(context: UnitContext<'_>, edges: Seq<OrderedMatch>) -> bool {
    &&& forall|k: int|
        0 <= k < edges.len() ==> (#[trigger] edges[k]).before < context.scene.before_len()
            && edges[k].after < context.scene.after_len() && is_exact_edge(
            context,
            edges[k].before as int,
            edges[k].after as int,
        ) && context.links.partners.before@[edges[k].before as int] == Some(edges[k].after)
            && context.scene.before.prints@[edges[k].before as int].full
            == context.scene.after.prints@[edges[k].after as int].full
    &&& forall|k: int, l: int|
        0 <= k < l < edges.len() ==> (#[trigger] edges[k]).before < (#[trigger] edges[l]).before
}

/// Which exact subtrees are linked as a whole.
pub struct Cover {
    /// Partner of every covered before node.
    pub partner: Vec<Option<usize>>,
    /// Root of every covered before node.
    pub root: Vec<Option<usize>>,
    pub after: Vec<bool>,
    /// Outermost exact subtrees, in before order.
    pub roots: Vec<OrderedMatch>,
}

/// Larger before subtrees first, then before order.
pub open spec fn goes_first(tree: SyntaxTree, left: OrderedMatch, right: OrderedMatch) -> bool {
    let left_size = tree.nodes@[left.before as int].subtree_end - left.before;
    let right_size = tree.nodes@[right.before as int].subtree_end - right.before;
    left_size > right_size || (left_size == right_size && left.before < right.before)
}

/// The edges are in the order in which they are chosen.
spec fn cover_ordered(tree: SyntaxTree, edges: Seq<OrderedMatch>) -> bool {
    forall|k: int, l: int|
        0 <= k < l < edges.len() ==> goes_first(tree, #[trigger] edges[k], #[trigger] edges[l])
}

/// The exact subtree of the edge holds the before node in a place that its partner has too.
pub open spec fn holds_before(scene: Scene<'_>, edge: OrderedMatch, before: int) -> bool {
    exists|after: int| #[trigger]
        is_walk_pair(scene, edge.before as int, edge.after as int, before, after)
}

/// The exact subtree of the one edge takes an end of the other.
pub open spec fn takes_edge(scene: Scene<'_>, edge: OrderedMatch, other: OrderedMatch) -> bool {
    holds_before(scene, edge, other.before as int) || scene.pair.after.in_subtree(
        edge.after as int,
        other.after as int,
    )
}

/// The list of edges holds one that goes first and takes an end of the edge.
pub open spec fn is_overtaken(
    scene: Scene<'_>,
    chosen: Seq<OrderedMatch>,
    edge: OrderedMatch,
) -> bool {
    exists|k: int|
        0 <= k < chosen.len() && goes_first(scene.pair.before, #[trigger] chosen[k], edge)
            && takes_edge(scene, chosen[k], edge)
}

/// Marks of the chosen subtrees: a before node is covered where one of them holds it, by the last
/// of these; and an after node where one of them contains it.
pub open spec fn marks_subtrees(
    context: UnitContext<'_>,
    chosen: Seq<OrderedMatch>,
    partner: Seq<Option<usize>>,
    root: Seq<Option<usize>>,
    after: Seq<bool>,
) -> bool {
    &&& forall|b: int|
        0 <= b < root.len() ==> ((#[trigger] root[b]) is Some <==> partner[b] is Some) && (
        root[b] matches Some(r) ==> is_last_holder(context, chosen, b, r, partner[b]->0 as int))
    &&& forall|b: int, k: int|
        0 <= b < root.len() && 0 <= k < chosen.len() && #[trigger] holds_before(
            context.scene,
            chosen[k],
            b,
        ) ==> root[b] is Some
    &&& forall|a: int|
        0 <= a < after.len() ==> ((#[trigger] after[a]) <==> exists|k: int|
            0 <= k < chosen.len() && context.scene.pair.after.in_subtree(
                (#[trigger] chosen[k]).after as int,
                a,
            ))
}

/// The last chosen subtree that holds the node, which pairs it with the partner.
pub open spec fn is_last_holder(
    context: UnitContext<'_>,
    chosen: Seq<OrderedMatch>,
    before: int,
    root: usize,
    partner: int,
) -> bool {
    exists|k: int|
        0 <= k < chosen.len() && (#[trigger] chosen[k]).before == root && is_walk_pair(
            context.scene,
            chosen[k].before as int,
            chosen[k].after as int,
            before,
            partner,
        ) && forall|l: int|
            0 <= l < chosen.len() && #[trigger] holds_before(context.scene, chosen[l], before)
                ==> l == k || goes_first(context.scene.pair.before, chosen[l], chosen[k])
}

/// The largest exact subtrees cover the unit: in order of size, an edge is chosen unless one
/// chosen before it takes an end.
#[verifier::opaque]
pub open spec fn is_cover(
    context: UnitContext<'_>,
    edges: Seq<OrderedMatch>,
    cover: Cover,
) -> bool {
    &&& forall|k: int|
        0 <= k < edges.len() ==> (cover.roots@.contains(#[trigger] edges[k]) <==> !is_overtaken(
            context.scene,
            cover.roots@,
            edges[k],
        ))
    &&& forall|k: int| 0 <= k < cover.roots@.len() ==> edges.contains(#[trigger] cover.roots@[k])
    &&& exists|chosen: Seq<OrderedMatch>| #[trigger]
        marks_subtrees(context, chosen, cover.partner@, cover.root@, cover.after@)
            && same_edges(chosen, cover.roots@)
}

/// Both lists hold the same edges.
pub open spec fn same_edges(left: Seq<OrderedMatch>, right: Seq<OrderedMatch>) -> bool {
    forall|edge: OrderedMatch| left.contains(edge) <==> right.contains(edge)
}

impl Cover {
    pub open spec fn wf(self, context: UnitContext<'_>) -> bool {
        &&& self.partner@.len() == context.scene.before_len()
        &&& self.root@.len() == context.scene.before_len()
        &&& self.after@.len() == context.scene.after_len()
        &&& forall|i: int|
            0 <= i < self.partner@.len() ==> ((#[trigger] self.partner@[i]) matches Some(j) ==> j
                < context.scene.after_len())
        &&& forall|i: int|
            0 <= i < self.root@.len() ==> ((#[trigger] self.root@[i]) matches Some(r) ==> r
                < context.scene.before_len())
        &&& forall|k: int|
            0 <= k < self.roots@.len() ==> (#[trigger] self.roots@[k]).before
                < context.scene.before_len() && self.roots@[k].after < context.scene.after_len()
                && context.scene.before.prints@[self.roots@[k].before as int].full
                == context.scene.after.prints@[self.roots@[k].after as int].full
    }

    /// Mark two subtrees of equal content as linked, node by node.
    fn claim(&mut self, context: &UnitContext<'_>, edge: OrderedMatch)
        requires
            context.wf(),
            old(self).wf(*context),
            edge.before < context.scene.before_len(),
            edge.after < context.scene.after_len(),
        ensures
            final(self).wf(*context),
            final(self).roots == old(self).roots,
            forall|a: int|
                0 <= a < context.scene.after_len() ==> (#[trigger] final(self).after@[a] <==> old(
                    self,
                ).after@[a] || context.scene.pair.after.in_subtree(edge.after as int, a)),
            forall|b: int|
                0 <= b < context.scene.before_len() && !holds_before(context.scene, edge, b) ==> (
                #[trigger] final(self).root@[b]) == old(self).root@[b] && final(self).partner@[b]
                    == old(self).partner@[b],
            forall|b: int, a: int| #[trigger]
                is_walk_pair(context.scene, edge.before as int, edge.after as int, b, a)
                    ==> final(self).root@[b] == Some(edge.before) && final(self).partner@[b] == Some(
                    a as usize,
                ),
    {
        let ghost start = *self;
        let before_tree = &context.scene.pair.before;
        let after_tree = &context.scene.pair.after;
        proof {
            lemma_subtree_fits(*before_tree, edge.before as int);
            lemma_subtree_fits(*after_tree, edge.after as int);
        }
        let before_end = before_tree.nodes[edge.before].subtree_end;
        let after_end = after_tree.nodes[edge.after].subtree_end;
        let mut mark: usize = edge.after;
        while mark < after_end
            invariant
                self.wf(*context),
                self.roots == old(self).roots,
                start == *old(self),
                self.root@ == start.root@,
                self.partner@ == start.partner@,
                edge.after <= mark <= after_end <= context.scene.after_len(),
                forall|a: int|
                    0 <= a < context.scene.after_len() ==> (#[trigger] self.after@[a]
                        <==> start.after@[a] || edge.after <= a < mark),
            decreases after_end - mark,
        {
            self.after.set(mark, true);
            mark += 1;
        }
        let mut left: usize = edge.before;
        let mut right: usize = edge.after;
        while left < before_end && right < after_end
            invariant
                context.wf(),
                before_tree == &context.scene.pair.before,
                after_tree == &context.scene.pair.after,
                self.wf(*context),
                self.roots == old(self).roots,
                edge.before < context.scene.before_len(),
                before_end <= context.scene.before_len(),
                after_end <= context.scene.after_len(),
                edge.after < context.scene.after_len(),
                before_end == before_tree.nodes@[edge.before as int].subtree_end,
                after_end == after_tree.nodes@[edge.after as int].subtree_end,
                edge.before <= left <= before_end,
                edge.after <= right <= after_end,
                start == *old(self),
                forall|a: int|
                    0 <= a < context.scene.after_len() ==> (#[trigger] self.after@[a]
                        <==> start.after@[a] || context.scene.pair.after.in_subtree(
                        edge.after as int,
                        a,
                    )),
                content_count(*before_tree, edge.before as int, left as int) == content_count(
                    *after_tree,
                    edge.after as int,
                    right as int,
                ),
                forall|b: int|
                    0 <= b < context.scene.before_len() && !holds_before(context.scene, edge, b)
                        ==> (#[trigger] self.root@[b]) == start.root@[b] && self.partner@[b]
                        == start.partner@[b],
                forall|b: int, a: int|
                    b < left && #[trigger] is_walk_pair(
                        context.scene,
                        edge.before as int,
                        edge.after as int,
                        b,
                        a,
                    ) ==> self.root@[b] == Some(edge.before) && self.partner@[b] == Some(a as usize),
            decreases (before_end - left) + (after_end - right),
        {
            if before_tree.nodes[left].layout_leaf() {
                left += 1;
            } else if after_tree.nodes[right].layout_leaf() {
                right += 1;
            } else {
                proof {
                    assert(is_walk_pair(
                        context.scene,
                        edge.before as int,
                        edge.after as int,
                        left as int,
                        right as int,
                    ));
                    assert(holds_before(context.scene, edge, left as int));
                    assert forall|a: int|
                        #[trigger] is_walk_pair(
                            context.scene,
                            edge.before as int,
                            edge.after as int,
                            left as int,
                            a,
                        ) implies a == right by {
                        lemma_walk_step(
                            context.scene,
                            edge.before as int,
                            edge.after as int,
                            left as int,
                            right as int,
                            a,
                        );
                    }
                }
                self.partner.set(left, Some(right));
                self.root.set(left, Some(edge.before));
                left += 1;
                right += 1;
            }
        }
        proof {
            assert forall|b: int, a: int|
                #[trigger] is_walk_pair(
                    context.scene,
                    edge.before as int,
                    edge.after as int,
                    b,
                    a,
                ) implies self.root@[b] == Some(edge.before) && self.partner@[b] == Some(a as usize) by {
                lemma_walk_end(
                    context.scene,
                    edge.before as int,
                    edge.after as int,
                    left as int,
                    right as int,
                    b,
                    a,
                );
            }
        }
    }
}

/// Position at which an edge keeps a list ordered: larger subtrees first, then before order.
fn cover_position(tree: &SyntaxTree, ordered: &Vec<OrderedMatch>, edge: OrderedMatch) -> (position:
    usize)
    requires
        tree.wf(),
        tree.has_node(edge.before as int),
        forall|k: int|
            0 <= k < ordered@.len() ==> (#[trigger] ordered@[k]).before < tree.nodes@.len(),
        cover_ordered(*tree, ordered@),
        forall|k: int| 0 <= k < ordered@.len() ==> (#[trigger] ordered@[k]).before != edge.before,
    ensures
        position <= ordered@.len(),
        forall|k: int| 0 <= k < position ==> goes_first(*tree, #[trigger] ordered@[k], edge),
        forall|k: int|
            position <= k < ordered@.len() ==> goes_first(*tree, edge, #[trigger] ordered@[k]),
{
    proof {
        lemma_subtree_fits(*tree, edge.before as int);
    }
    let size = tree.nodes[edge.before].subtree_end - edge.before;
    let mut low: usize = 0;
    let mut high: usize = ordered.len();
    while low < high
        invariant
            low <= high <= ordered@.len(),
            tree.wf(),
            forall|k: int|
                0 <= k < ordered@.len() ==> (#[trigger] ordered@[k]).before < tree.nodes@.len(),
            cover_ordered(*tree, ordered@),
            tree.has_node(edge.before as int),
            size == tree.nodes@[edge.before as int].subtree_end - edge.before,
            forall|k: int|
                0 <= k < ordered@.len() ==> (#[trigger] ordered@[k]).before != edge.before,
            forall|k: int| 0 <= k < low ==> goes_first(*tree, #[trigger] ordered@[k], edge),
            forall|k: int|
                high <= k < ordered@.len() ==> goes_first(*tree, edge, #[trigger] ordered@[k]),
        decreases high - low,
    {
        let middle = low + (high - low) / 2;
        let other = ordered[middle];
        proof {
            assert(ordered@[middle as int] == other);
            lemma_subtree_fits(*tree, other.before as int);
        }
        let other_size = tree.nodes[other.before].subtree_end - other.before;
        proof {
            assert forall|k: int| 0 <= k < middle implies goes_first(
                *tree,
                #[trigger] ordered@[k],
                other,
            ) by {
                assert(goes_first(*tree, ordered@[k], ordered@[middle as int]));
            }
            assert forall|k: int| middle < k < ordered@.len() implies goes_first(
                *tree,
                other,
                #[trigger] ordered@[k],
            ) by {
                assert(goes_first(*tree, ordered@[middle as int], ordered@[k]));
            }
        }
        if other_size > size || (other_size == size && other.before < edge.before) {
            low = middle + 1;
        } else {
            high = middle;
        }
    }
    low
}

/// Choose the largest exact subtrees first; pairing their repeated descendants separately could
/// give those descendants partners outside the subtree.
#[verifier::rlimit(60)]
#[verifier::spinoff_prover]
fn exact_cover(context: &UnitContext<'_>, edges: &Vec<OrderedMatch>) -> (cover: Cover)
    requires
        context.wf(),
        exact_edges(*context, edges@),
    ensures
        cover.wf(*context),
        is_cover(*context, edges@, cover),
{
    let scene = &context.scene;
    let mut ordered: Vec<OrderedMatch> = Vec::new();
    let mut index: usize = 0;
    while index < edges.len()
        invariant
            context.wf(),
            scene == &context.scene,
            exact_edges(*context, edges@),
            index <= edges@.len(),
            cover_ordered(scene.pair.before, ordered@),
            forall|k: int|
                0 <= k < ordered@.len() ==> edges@.take(index as int).contains(
                    #[trigger] ordered@[k],
                ),
            forall|k: int| 0 <= k < index ==> ordered@.contains(#[trigger] edges@[k]),
            forall|k: int|
                0 <= k < ordered@.len() ==> (#[trigger] ordered@[k]).before < scene.before_len()
                    && ordered@[k].after < scene.after_len()
                    && scene.before.prints@[ordered@[k].before as int].full
                    == scene.after.prints@[ordered@[k].after as int].full,
        decreases edges@.len() - index,
    {
        let edge = edges[index];
        assert(edges@[index as int] == edge);
        let ghost seen = edges@.take(index as int);
        proof {
            assert forall|k: int| 0 <= k < ordered@.len() implies (#[trigger] ordered@[k]).before
                != edge.before by {
                assert(seen.contains(ordered@[k]));
                let at = choose|at: int| 0 <= at < seen.len() && seen[at] == ordered@[k];
                assert(edges@[at].before < edges@[index as int].before);
            }
        }
        let position = cover_position(&scene.pair.before, &ordered, edge);
        let ghost earlier = ordered@;
        ordered.insert(position, edge);
        proof {
            let more = edges@.take(index + 1);
            assert(more =~= seen.push(edge));
            assert forall|k: int| 0 <= k < ordered@.len() implies more.contains(
                #[trigger] ordered@[k],
            ) by {
                if k == position {
                    assert(more[index as int] == edge);
                } else {
                    let from = if k < position {
                        k
                    } else {
                        k - 1
                    };
                    assert(ordered@[k] == earlier[from]);
                    assert(seen.contains(earlier[from]));
                    let at = choose|at: int| 0 <= at < seen.len() && seen[at] == earlier[from];
                    assert(more[at] == ordered@[k]);
                }
            }
            assert forall|k: int| 0 <= k < index + 1 implies ordered@.contains(
                #[trigger] edges@[k],
            ) by {
                if k == index {
                    assert(ordered@[position as int] == edge);
                } else {
                    assert(earlier.contains(edges@[k]));
                    let at = choose|at: int| 0 <= at < earlier.len() && earlier[at] == edges@[k];
                    if at < position {
                        assert(ordered@[at] == edges@[k]);
                    } else {
                        assert(ordered@[at + 1] == edges@[k]);
                    }
                }
            }
            assert forall|k: int, l: int| 0 <= k < l < ordered@.len() implies goes_first(
                scene.pair.before,
                #[trigger] ordered@[k],
                #[trigger] ordered@[l],
            ) by {
                let from = if k < position {
                    k
                } else {
                    k - 1
                };
                let to = if l < position {
                    l
                } else {
                    l - 1
                };
                if k == position {
                    assert(ordered@[l] == earlier[to]);
                } else if l == position {
                    assert(ordered@[k] == earlier[from]);
                } else {
                    assert(ordered@[k] == earlier[from] && ordered@[l] == earlier[to]);
                    assert(goes_first(scene.pair.before, earlier[from], earlier[to]));
                }
            }
            assert forall|k: int| 0 <= k < ordered@.len() implies (#[trigger] ordered@[k]).before
                < scene.before_len() && ordered@[k].after < scene.after_len()
                && scene.before.prints@[ordered@[k].before as int].full
                == scene.after.prints@[ordered@[k].after as int].full by {
                if k < position {
                    assert(ordered@[k] == earlier[k]);
                } else if k > position {
                    assert(ordered@[k] == earlier[k - 1]);
                }
            }
        }
        index += 1;
    }
    let before_len = scene.pair.before.nodes.len();
    let after_len = scene.pair.after.nodes.len();
    let mut cover = Cover {
        partner: nothing(before_len),
        root: nothing(before_len),
        after: repeated(false, after_len),
        roots: Vec::new(),
    };
    let mut chosen: Vec<bool> = repeated(false, before_len);
    let ghost mut taken: Seq<OrderedMatch> = Seq::empty();
    proof {
        assert(edges@.take(edges@.len() as int) =~= edges@);
        assert(marks_subtrees(*context, taken, cover.partner@, cover.root@, cover.after@));
    }
    let mut position: usize = 0;
    while position < ordered.len()
        invariant
            context.wf(),
            scene == &context.scene,
            position <= ordered@.len(),
            cover.wf(*context),
            cover.roots@.len() == 0,
            chosen@.len() == scene.before_len(),
            exact_edges(*context, edges@),
            cover_ordered(scene.pair.before, ordered@),
            forall|k: int| 0 <= k < ordered@.len() ==> edges@.contains(#[trigger] ordered@[k]),
            marks_subtrees(*context, taken, cover.partner@, cover.root@, cover.after@),
            are_taken(*scene, ordered@, position as int, taken),
            forall|b: int|
                0 <= b < chosen@.len() ==> (#[trigger] chosen@[b] <==> exists|k: int|
                    0 <= k < taken.len() && (#[trigger] taken[k]).before == b),
            forall|k: int|
                0 <= k < ordered@.len() ==> (#[trigger] ordered@[k]).before < scene.before_len()
                    && ordered@[k].after < scene.after_len()
                    && scene.before.prints@[ordered@[k].before as int].full
                    == scene.after.prints@[ordered@[k].after as int].full,
        decreases ordered@.len() - position,
    {
        let edge = ordered[position];
        assert(ordered@[position as int] == edge);
        let ghost before_cover = cover;
        let ghost fewer = taken;
        let ghost before_chosen = chosen@;
        proof {
            lemma_overtaken(*context, ordered@, position as int, taken, cover);
        }
        if cover.root[edge.before].is_none() && !cover.after[edge.after] {
            cover.claim(context, edge);
            chosen.set(edge.before, true);
            proof {
                assert forall|k: int| 0 <= k < fewer.len() implies goes_first(
                    scene.pair.before,
                    #[trigger] fewer[k],
                    edge,
                ) by {
                    let i = choose|i: int| 0 <= i < position && #[trigger] ordered@[i] == fewer[k];
                    assert(goes_first(
                        scene.pair.before,
                        ordered@[i],
                        ordered@[position as int],
                    ));
                }
                taken = taken.push(edge);
                lemma_marks_grow(*context, fewer, edge, before_cover, cover);
                assert forall|b: int| 0 <= b < chosen@.len() implies (#[trigger] chosen@[b]
                    <==> exists|k: int| 0 <= k < taken.len() && (#[trigger] taken[k]).before == b) by {
                    if b == edge.before {
                        assert(taken[fewer.len() as int].before == b);
                    } else {
                        assert(chosen@[b] == before_chosen[b]);
                        if before_chosen[b] {
                            let k = choose|k: int|
                                0 <= k < fewer.len() && (#[trigger] fewer[k]).before == b;
                            assert(taken[k].before == b);
                        }
                        if exists|k: int| 0 <= k < taken.len() && (#[trigger] taken[k]).before == b {
                            let k = choose|k: int|
                                0 <= k < taken.len() && (#[trigger] taken[k]).before == b;
                            assert(fewer[k].before == b);
                        }
                    }
                }
            }
        }
        proof {
            lemma_taken_step(*scene, ordered@, position as int, fewer, taken);
        }
        position += 1;
    }
    let ghost marked = cover;
    let mut at: usize = 0;
    while at < edges.len()
        invariant
            context.wf(),
            scene == &context.scene,
            exact_edges(*context, edges@),
            at <= edges@.len(),
            cover.wf(*context),
            chosen@.len() == scene.before_len(),
            cover.partner == marked.partner,
            cover.root == marked.root,
            cover.after == marked.after,
            forall|k: int|
                0 <= k < cover.roots@.len() ==> edges@.contains(#[trigger] cover.roots@[k])
                    && chosen@[cover.roots@[k].before as int],
            forall|k: int|
                0 <= k < at && chosen@[(#[trigger] edges@[k]).before as int]
                    ==> cover.roots@.contains(edges@[k]),
        decreases edges@.len() - at,
    {
        let edge = edges[at];
        assert(edges@[at as int] == edge);
        let ghost fewer = cover.roots@;
        if chosen[edge.before] {
            cover.roots.push(edge);
            assert(cover.roots@[fewer.len() as int] == edge);
        }
        proof {
            assert forall|k: int|
                0 <= k < at + 1 && chosen@[(#[trigger] edges@[k]).before as int] implies
                cover.roots@.contains(edges@[k]) by {
                if k < at {
                    assert(fewer.contains(edges@[k]));
                    let x = choose|x: int| 0 <= x < fewer.len() && fewer[x] == edges@[k];
                    assert(cover.roots@[x] == edges@[k]);
                }
            }
        }
        at += 1;
    }
    proof {
        lemma_cover(*context, edges@, ordered@, taken, chosen@, cover);
    }
    cover
}

/// The first edges in order are chosen unless one chosen before them takes an end.
spec fn are_taken(
    scene: Scene<'_>,
    ordered: Seq<OrderedMatch>,
    end: int,
    taken: Seq<OrderedMatch>,
) -> bool {
    &&& forall|k: int|
        0 <= k < taken.len() ==> exists|i: int|
            0 <= i < end && #[trigger] ordered[i] == #[trigger] taken[k]
    &&& forall|i: int|
        0 <= i < end ==> (taken.contains(#[trigger] ordered[i]) <==> !is_overtaken(
            scene,
            taken,
            ordered[i],
        ))
}

/// The marks tell whether the next edge is overtaken.
proof fn lemma_overtaken(
    context: UnitContext<'_>,
    ordered: Seq<OrderedMatch>,
    position: int,
    taken: Seq<OrderedMatch>,
    cover: Cover,
)
    requires
        context.wf(),
        cover.wf(context),
        0 <= position < ordered.len(),
        ordered[position].before < context.scene.before_len(),
        ordered[position].after < context.scene.after_len(),
        cover_ordered(context.scene.pair.before, ordered),
        are_taken(context.scene, ordered, position, taken),
        marks_subtrees(context, taken, cover.partner@, cover.root@, cover.after@),
    ensures
        is_overtaken(context.scene, taken, ordered[position])
            <==> cover.root@[ordered[position].before as int] is Some
            || cover.after@[ordered[position].after as int],
{
    let edge = ordered[position];
    let scene = context.scene;
    assert forall|k: int| 0 <= k < taken.len() implies goes_first(
        scene.pair.before,
        #[trigger] taken[k],
        edge,
    ) by {
        let i = choose|i: int| 0 <= i < position && #[trigger] ordered[i] == taken[k];
        assert(goes_first(scene.pair.before, ordered[i], ordered[position]));
    }
    if is_overtaken(scene, taken, edge) {
        let k = choose|k: int|
            0 <= k < taken.len() && goes_first(scene.pair.before, #[trigger] taken[k], edge)
                && takes_edge(scene, taken[k], edge);
        if holds_before(scene, taken[k], edge.before as int) {
            assert(cover.root@[edge.before as int] is Some);
        } else {
            assert(scene.pair.after.in_subtree(taken[k].after as int, edge.after as int));
            assert(cover.after@[edge.after as int]);
        }
    }
    if cover.root@[edge.before as int] is Some {
        let r = cover.root@[edge.before as int]->0;
        let partner = cover.partner@[edge.before as int]->0 as int;
        assert(is_last_holder(context, taken, edge.before as int, r, partner));
        let k = choose|k: int|
            0 <= k < taken.len() && (#[trigger] taken[k]).before == r && is_walk_pair(
                scene,
                taken[k].before as int,
                taken[k].after as int,
                edge.before as int,
                partner,
            ) && forall|l: int|
                0 <= l < taken.len() && #[trigger] holds_before(
                    scene,
                    taken[l],
                    edge.before as int,
                ) ==> l == k || goes_first(scene.pair.before, taken[l], taken[k]);
        assert(holds_before(scene, taken[k], edge.before as int));
        assert(takes_edge(scene, taken[k], edge));
    }
    if cover.after@[edge.after as int] {
        let k = choose|k: int|
            0 <= k < taken.len() && scene.pair.after.in_subtree(
                (#[trigger] taken[k]).after as int,
                edge.after as int,
            );
        assert(takes_edge(scene, taken[k], edge));
    }
}

/// One more edge decided.
proof fn lemma_taken_step(
    scene: Scene<'_>,
    ordered: Seq<OrderedMatch>,
    position: int,
    fewer: Seq<OrderedMatch>,
    taken: Seq<OrderedMatch>,
)
    requires
        0 <= position < ordered.len(),
        cover_ordered(scene.pair.before, ordered),
        are_taken(scene, ordered, position, fewer),
        taken == if is_overtaken(scene, fewer, ordered[position]) {
            fewer
        } else {
            fewer.push(ordered[position])
        },
    ensures
        are_taken(scene, ordered, position + 1, taken),
{
    let edge = ordered[position];
    assert forall|k: int| 0 <= k < taken.len() implies exists|i: int|
        0 <= i < position + 1 && #[trigger] ordered[i] == #[trigger] taken[k] by {
        if k < fewer.len() {
            let i = choose|i: int| 0 <= i < position && #[trigger] ordered[i] == fewer[k];
            assert(ordered[i] == taken[k]);
        } else {
            assert(ordered[position] == taken[k]);
        }
    }
    assert forall|i: int| 0 <= i < position + 1 implies (taken.contains(#[trigger] ordered[i])
        <==> !is_overtaken(scene, taken, ordered[i])) by {
        let other = ordered[i];
        assert(!goes_first(scene.pair.before, edge, other)) by {
            if i < position {
                assert(goes_first(scene.pair.before, ordered[i], ordered[position]));
            }
        }
        if is_overtaken(scene, fewer, other) {
            let k = choose|k: int|
                0 <= k < fewer.len() && goes_first(scene.pair.before, #[trigger] fewer[k], other)
                    && takes_edge(scene, fewer[k], other);
            assert(taken[k] == fewer[k]);
            assert(is_overtaken(scene, taken, other));
        }
        if is_overtaken(scene, taken, other) {
            let k = choose|k: int|
                0 <= k < taken.len() && goes_first(scene.pair.before, #[trigger] taken[k], other)
                    && takes_edge(scene, taken[k], other);
            assert(fewer[k] == taken[k]);
            assert(is_overtaken(scene, fewer, other));
        }
        if i < position {
            assert(goes_first(scene.pair.before, ordered[i], ordered[position]));
            if fewer.contains(other) {
                let k = choose|k: int| 0 <= k < fewer.len() && fewer[k] == other;
                assert(taken[k] == other);
            }
            if taken.contains(other) {
                let k = choose|k: int| 0 <= k < taken.len() && taken[k] == other;
                assert(k < fewer.len());
                assert(fewer[k] == other);
            }
        } else {
            if is_overtaken(scene, fewer, edge) {
                if taken.contains(edge) {
                    let k = choose|k: int| 0 <= k < taken.len() && taken[k] == edge;
                    let x = choose|x: int| 0 <= x < position && #[trigger] ordered[x] == fewer[k];
                    assert(goes_first(scene.pair.before, ordered[x], ordered[position]));
                }
            } else {
                assert(taken[fewer.len() as int] == edge);
            }
        }
    }
}

/// Claiming one more subtree marks what it holds.
proof fn lemma_marks_grow(
    context: UnitContext<'_>,
    fewer: Seq<OrderedMatch>,
    edge: OrderedMatch,
    earlier: Cover,
    cover: Cover,
)
    requires
        context.wf(),
        earlier.wf(context),
        cover.wf(context),
        edge.before < context.scene.before_len(),
        edge.after < context.scene.after_len(),
        marks_subtrees(context, fewer, earlier.partner@, earlier.root@, earlier.after@),
        forall|k: int|
            0 <= k < fewer.len() ==> goes_first(
                context.scene.pair.before,
                #[trigger] fewer[k],
                edge,
            ),
        forall|a: int|
            0 <= a < context.scene.after_len() ==> (#[trigger] cover.after@[a]
                <==> earlier.after@[a] || context.scene.pair.after.in_subtree(edge.after as int, a)),
        forall|b: int|
            0 <= b < context.scene.before_len() && !holds_before(context.scene, edge, b) ==> (
            #[trigger] cover.root@[b]) == earlier.root@[b] && cover.partner@[b]
                == earlier.partner@[b],
        forall|b: int, a: int| #[trigger]
            is_walk_pair(context.scene, edge.before as int, edge.after as int, b, a)
                ==> cover.root@[b] == Some(edge.before) && cover.partner@[b] == Some(a as usize),
    ensures
        marks_subtrees(context, fewer.push(edge), cover.partner@, cover.root@, cover.after@),
{
    let scene = context.scene;
    let taken = fewer.push(edge);
    lemma_subtree_fits(scene.pair.before, edge.before as int);
    lemma_subtree_fits(scene.pair.after, edge.after as int);
    assert(scene.pair.after.nodes.len() <= usize::MAX);
    assert forall|b: int| 0 <= b < cover.root@.len() implies ((#[trigger] cover.root@[b]) is Some
        <==> cover.partner@[b] is Some) && (cover.root@[b] matches Some(r) ==> is_last_holder(
        context,
        taken,
        b,
        r,
        cover.partner@[b]->0 as int,
    )) by {
        if holds_before(scene, edge, b) {
            let a = choose|a: int| #[trigger]
                is_walk_pair(scene, edge.before as int, edge.after as int, b, a);
            assert(cover.root@[b] == Some(edge.before) && cover.partner@[b] == Some(a as usize));
            let last = fewer.len() as int;
            assert(taken[last] == edge);
            assert forall|l: int| 0 <= l < taken.len() && #[trigger] holds_before(
                scene,
                taken[l],
                b,
            ) implies l == last || goes_first(scene.pair.before, taken[l], taken[last]) by {
                if l < last {
                    assert(taken[l] == fewer[l]);
                }
            }
            assert(is_last_holder(context, taken, b, edge.before, a));
        } else {
            assert(cover.root@[b] == earlier.root@[b]);
            if let Some(r) = earlier.root@[b] {
                let partner = earlier.partner@[b]->0 as int;
                assert(is_last_holder(context, fewer, b, r, partner));
                let k = choose|k: int|
                    0 <= k < fewer.len() && (#[trigger] fewer[k]).before == r && is_walk_pair(
                        scene,
                        fewer[k].before as int,
                        fewer[k].after as int,
                        b,
                        partner,
                    ) && forall|l: int|
                        0 <= l < fewer.len() && #[trigger] holds_before(scene, fewer[l], b) ==> l
                            == k || goes_first(scene.pair.before, fewer[l], fewer[k]);
                assert(taken[k] == fewer[k]);
                assert forall|l: int| 0 <= l < taken.len() && #[trigger] holds_before(
                    scene,
                    taken[l],
                    b,
                ) implies l == k || goes_first(scene.pair.before, taken[l], taken[k]) by {
                    assert(l < fewer.len());
                    assert(taken[l] == fewer[l]);
                    assert(holds_before(scene, fewer[l], b));
                }
                assert(is_last_holder(context, taken, b, r, partner));
            }
        }
    }
    assert forall|b: int, k: int|
        0 <= b < cover.root@.len() && 0 <= k < taken.len() && #[trigger] holds_before(
            scene,
            taken[k],
            b,
        ) implies cover.root@[b] is Some by {
        let a = choose|a: int| #[trigger]
            is_walk_pair(scene, taken[k].before as int, taken[k].after as int, b, a);
        if k < fewer.len() {
            assert(taken[k] == fewer[k]);
            assert(holds_before(scene, fewer[k], b));
            assert(earlier.root@[b] is Some);
            if holds_before(scene, edge, b) {
                let x = choose|x: int| #[trigger]
                    is_walk_pair(scene, edge.before as int, edge.after as int, b, x);
                assert(cover.root@[b] == Some(edge.before));
            } else {
                assert(cover.root@[b] == earlier.root@[b]);
            }
        }
    }
    assert forall|a: int| 0 <= a < cover.after@.len() implies (#[trigger] cover.after@[a]
        <==> exists|k: int|
        0 <= k < taken.len() && scene.pair.after.in_subtree((#[trigger] taken[k]).after as int, a)) by {
        if earlier.after@[a] {
            let k = choose|k: int|
                0 <= k < fewer.len() && scene.pair.after.in_subtree(
                    (#[trigger] fewer[k]).after as int,
                    a,
                );
            assert(taken[k] == fewer[k]);
        }
        if scene.pair.after.in_subtree(edge.after as int, a) {
            assert(taken[fewer.len() as int] == edge);
        }
        if exists|k: int|
            0 <= k < taken.len() && scene.pair.after.in_subtree(
                (#[trigger] taken[k]).after as int,
                a,
            ) {
            let k = choose|k: int|
                0 <= k < taken.len() && scene.pair.after.in_subtree(
                    (#[trigger] taken[k]).after as int,
                    a,
                );
            if k < fewer.len() {
                assert(taken[k] == fewer[k]);
                assert(earlier.after@[a]);
            }
        }
    }
}

/// The roots are the chosen edges.
proof fn lemma_cover(
    context: UnitContext<'_>,
    edges: Seq<OrderedMatch>,
    ordered: Seq<OrderedMatch>,
    taken: Seq<OrderedMatch>,
    chosen: Seq<bool>,
    cover: Cover,
)
    requires
        exact_edges(context, edges),
        chosen.len() == context.scene.before_len(),
        are_taken(context.scene, ordered, ordered.len() as int, taken),
        marks_subtrees(context, taken, cover.partner@, cover.root@, cover.after@),
        forall|k: int| 0 <= k < ordered.len() ==> edges.contains(#[trigger] ordered[k]),
        forall|k: int| 0 <= k < edges.len() ==> ordered.contains(#[trigger] edges[k]),
        forall|b: int|
            0 <= b < chosen.len() ==> (#[trigger] chosen[b] <==> exists|k: int|
                0 <= k < taken.len() && (#[trigger] taken[k]).before == b),
        forall|k: int|
            0 <= k < cover.roots@.len() ==> edges.contains(#[trigger] cover.roots@[k])
                && chosen[cover.roots@[k].before as int],
        forall|k: int|
            0 <= k < edges.len() && chosen[(#[trigger] edges[k]).before as int]
                ==> cover.roots@.contains(edges[k]),
    ensures
        is_cover(context, edges, cover),
{
    reveal(is_cover);
    let scene = context.scene;
    assert forall|k: int| 0 <= k < taken.len() implies edges.contains(#[trigger] taken[k]) by {
        let i = choose|i: int| 0 <= i < ordered.len() && #[trigger] ordered[i] == taken[k];
        assert(edges.contains(ordered[i]));
    }
    assert forall|edge: OrderedMatch| taken.contains(edge) <==> cover.roots@.contains(edge) by {
        if taken.contains(edge) {
            let k = choose|k: int| 0 <= k < taken.len() && taken[k] == edge;
            assert(edges.contains(taken[k]));
            let e = choose|e: int| 0 <= e < edges.len() && edges[e] == edge;
            assert(chosen[edges[e].before as int]) by {
                assert(taken[k].before == edges[e].before);
            }
        }
        if cover.roots@.contains(edge) {
            let k = choose|k: int| 0 <= k < cover.roots@.len() && cover.roots@[k] == edge;
            assert(edges.contains(cover.roots@[k]));
            assert(chosen[edge.before as int]);
            let t = choose|t: int| 0 <= t < taken.len() && (#[trigger] taken[t]).before == edge.before;
            assert(edges.contains(taken[t]));
            let e = choose|e: int| 0 <= e < edges.len() && edges[e] == taken[t];
            let f = choose|f: int| 0 <= f < edges.len() && edges[f] == edge;
            if e < f {
                assert(edges[e].before < edges[f].before);
            } else if f < e {
                assert(edges[f].before < edges[e].before);
            }
            assert(taken[t] == edge);
        }
    }
    assert(same_edges(taken, cover.roots@));
    assert forall|k: int| 0 <= k < edges.len() implies (cover.roots@.contains(#[trigger] edges[k])
        <==> !is_overtaken(scene, cover.roots@, edges[k])) by {
        let edge = edges[k];
        assert(ordered.contains(edge));
        let i = choose|i: int| 0 <= i < ordered.len() && ordered[i] == edge;
        assert(taken.contains(ordered[i]) <==> !is_overtaken(scene, taken, ordered[i]));
        if is_overtaken(scene, taken, edge) {
            let x = choose|x: int|
                0 <= x < taken.len() && goes_first(scene.pair.before, #[trigger] taken[x], edge)
                    && takes_edge(scene, taken[x], edge);
            assert(taken.contains(taken[x]));
            assert(cover.roots@.contains(taken[x]));
            let y = choose|y: int| 0 <= y < cover.roots@.len() && cover.roots@[y] == taken[x];
            assert(takes_edge(scene, cover.roots@[y], edge));
        }
        if is_overtaken(scene, cover.roots@, edge) {
            let x = choose|x: int|
                0 <= x < cover.roots@.len() && goes_first(
                    scene.pair.before,
                    #[trigger] cover.roots@[x],
                    edge,
                ) && takes_edge(scene, cover.roots@[x], edge);
            assert(cover.roots@.contains(cover.roots@[x]));
            assert(taken.contains(cover.roots@[x]));
            let y = choose|y: int| 0 <= y < taken.len() && taken[y] == cover.roots@[x];
            assert(takes_edge(scene, taken[y], edge));
        }
    }
}

/// Evidence that two nodes belong under the same parents: linked parents, or else a wrapper.
pub open spec fn parent_of(context: UnitContext<'_>, before: int, after: int) -> Option<
    ParentCorrespondence,
> {
    if parents_linked(
        context.scene,
        context.links.partners.before@,
        context.before_unit as int,
        context.after_unit as int,
        before,
        after,
    ) {
        Some(ParentCorrespondence::Direct)
    } else {
        match context.wrapper_of(before, after) {
            Some(wrapper) => Some(ParentCorrespondence::Reparented(wrapper)),
            None => None,
        }
    }
}

/// Placement of a match: that of what it decorates, or else its own.
pub open spec fn placement_of(
    context: UnitContext<'_>,
    before: int,
    placement: Placement,
) -> Placement {
    match context.scene.pair.before.nodes@[before].decoration_owner {
        Some(owner) => if context.links.partners.before@[owner as int] is Some {
            context.links.placement@[owner as int]
        } else {
            placement
        },
        None => placement,
    }
}

/// Wrapper evidence of the exact subtree that covers a node.
pub open spec fn cover_wrapper_of(context: UnitContext<'_>, cover: Cover, before: int) -> Option<
    Reparenting,
> {
    match cover.root@[before] {
        Some(root) => match context.links.partners.before@[root as int] {
            Some(after) => context.wrapper_of(root as int, after as int),
            None => None,
        },
        None => None,
    }
}

/// Evidence for the parents of an exact composite.
pub open spec fn composite_parent(context: UnitContext<'_>, cover: Cover, edge: OrderedMatch) -> Option<
    ParentCorrespondence,
> {
    match (
        context.scene.pair.before.nodes@[edge.before as int].parent,
        context.scene.pair.after.nodes@[edge.after as int].parent,
    ) {
        (Some(before), Some(after)) => if cover.partner@[before as int] == Some(after) {
            Some(ParentCorrespondence::Direct)
        } else {
            parent_of(context, edge.before as int, edge.after as int)
        },
        _ => parent_of(context, edge.before as int, edge.after as int),
    }
}

/// Exact composites that the first edges add: those with evidence for their parents.
pub open spec fn composite_links(
    context: UnitContext<'_>,
    cover: Cover,
    kept: Seq<OrderedMatch>,
    placements: Seq<Placement>,
    end: int,
) -> Seq<NodeLink>
    decreases end,
{
    if end <= 0 {
        Seq::empty()
    } else {
        let edge = kept[end - 1];
        let earlier = composite_links(context, cover, kept, placements, end - 1);
        match composite_parent(context, cover, edge) {
            Some(parent) => earlier.push(
                NodeLink {
                    before: edge.before,
                    after: edge.after,
                    parent,
                    wrapper: cover_wrapper_of(context, cover, edge.before as int),
                    placement: placement_of(context, edge.before as int, placements[end - 1]),
                },
            ),
            None => earlier,
        }
    }
}

/// The edges whose ends the cover pairs.
pub open spec fn kept_edges(edges: Seq<OrderedMatch>, cover: Cover) -> Seq<OrderedMatch> {
    edges.filter(|edge: OrderedMatch| cover.partner@[edge.before as int] == Some(edge.after))
}

/// The leaf link comes from the exact subtree of one of the composites.
pub open spec fn comes_from_subtree(
    scene: Scene<'_>,
    composites: Seq<NodeLink>,
    roots: Seq<OrderedMatch>,
    link: LeafLink,
) -> bool {
    exists|k: int|
        0 <= k < composites.len() && is_root_link(roots, #[trigger] composites[k])
            && is_subtree_leaf(scene, composites[k], link)
}

/// The composite is one of the outermost ones.
pub open spec fn is_root_link(roots: Seq<OrderedMatch>, link: NodeLink) -> bool {
    exists|k: int| 0 <= k < roots.len() && (#[trigger] roots[k]).before == link.before
}

/// The exact subtrees of a unit: every kept edge with evidence for its parents is a composite, and
/// the outermost ones link their leaves.
pub open spec fn subtrees_linked(
    context: UnitContext<'_>,
    cover: Cover,
    kept: Seq<OrderedMatch>,
    placements: Seq<Placement>,
    earlier: Builder,
    later: Builder,
) -> bool {
    let added = composite_links(context, cover, kept, placements, kept.len() as int);
    &&& placements.len() == kept.len()
    &&& places_longest(kept, placements)
    &&& later.composites@ == earlier.composites@ + added
    &&& forall|k: int|
        earlier.leaves.links@.len() <= k < later.leaves.links@.len() ==> comes_from_subtree(
            context.scene,
            added,
            cover.roots@,
            #[trigger] later.leaves.links@[k],
        )
    &&& forall|k: int|
        0 <= k < added.len() && is_root_link(cover.roots@, #[trigger] added[k]) ==> subtree_linked(
            context.scene,
            added[k],
            later,
        )
}

/// A container of the unit, or the unit itself, that no exact subtree covers.
pub open spec fn is_open_scope(context: UnitContext<'_>, cover: Cover, before: int) -> bool {
    &&& context.links.partners.before@[before] is Some
    &&& before == context.before_unit || context.scene.pair.before.nodes@[before].correspondence
        == CorrespondenceRole::HardOwner
    &&& cover.partner@[before] is None
    &&& !cover.after@[context.links.partners.before@[before]->0 as int]
}

/// The scope link of a container.
pub open spec fn scope_of(context: UnitContext<'_>, before: int) -> ScopeLink {
    let after = context.links.partners.before@[before]->0;
    ScopeLink {
        before: before as usize,
        after,
        placement: context.links.placement@[before],
        parent: match reparenting_of(
            *context.scene.pair,
            context.links.partners.before@,
            context.links.partners.after@,
            before,
            after as int,
        ) {
            Some(wrapper) => ParentCorrespondence::Reparented(wrapper),
            None => ParentCorrespondence::Direct,
        },
    }
}

/// Exactly the containers that no exact subtree covers are linked.
pub open spec fn scopes_linked(
    context: UnitContext<'_>,
    cover: Cover,
    earlier: Seq<ScopeLink>,
    later: Seq<ScopeLink>,
) -> bool {
    &&& earlier.len() <= later.len()
    &&& forall|k: int| 0 <= k < earlier.len() ==> (#[trigger] later[k]) == earlier[k]
    &&& forall|k: int|
        earlier.len() <= k < later.len() ==> is_open_scope(
            context,
            cover,
            (#[trigger] later[k]).before as int,
        ) && later[k] == scope_of(context, later[k].before as int)
    &&& forall|b: int|
        0 <= b < context.scene.before_len() && #[trigger] is_open_scope(context, cover, b)
            ==> later.contains(scope_of(context, b))
}

/// Evidence that two nodes belong under the same parents.
fn parent_correspondence(context: &UnitContext<'_>, before: NodeId, after: NodeId) -> (parent: Option<
    ParentCorrespondence,
>)
    requires
        context.wf(),
        before < context.scene.before_len(),
        after < context.scene.after_len(),
    ensures
        parent == parent_of(*context, before as int, after as int),
{
    if context.parents_are_linked(before, after) {
        return Some(ParentCorrespondence::Direct);
    }
    match context.enclosing_wrapper(before, after) {
        Some(wrapper) => Some(ParentCorrespondence::Reparented(wrapper)),
        None => None,
    }
}

impl Builder {
    /// Link the containers of a unit that no exact subtree covers.
    ///
    /// A conflict with an earlier scope undoes all of them.
    #[verifier::rlimit(60)]
    #[verifier::spinoff_prover]
    fn link_scopes(&mut self, context: &UnitContext<'_>, cover: &Cover) -> (linked: bool)
        requires
            context.wf(),
            old(self).wf(context.scene),
            cover.wf(*context),
        ensures
            final(self).wf(context.scene),
            final(self).leaves == old(self).leaves,
            final(self).composites == old(self).composites,
            !linked ==> final(self).scopes.links@ == old(self).scopes.links@ && scopes_conflict(
                *context,
                *cover,
                old(self).scopes,
            ),
            linked ==> scopes_linked(
                *context,
                *cover,
                old(self).scopes.links@,
                final(self).scopes.links@,
            ),
    {
        let scene = &context.scene;
        let scope_start = self.scopes.links.len();
        let ghost start = *self;
        let mut index: usize = 0;
        while index < context.links.partners.before.len()
            invariant
                context.wf(),
                scene == &context.scene,
                self.wf(context.scene),
                cover.wf(*context),
                index <= scene.before_len(),
                start == *old(self),
                self.leaves == start.leaves,
                self.composites == start.composites,
                scope_start == start.scopes.links@.len(),
                scope_start <= self.scopes.links@.len(),
                self.scopes.links@.take(scope_start as int) == start.scopes.links@,
                forall|k: int|
                    scope_start <= k < self.scopes.links@.len() ==> is_open_scope(
                        *context,
                        *cover,
                        (#[trigger] self.scopes.links@[k]).before as int,
                    ) && self.scopes.links@[k] == scope_of(
                        *context,
                        self.scopes.links@[k].before as int,
                    ),
                forall|b: int|
                    0 <= b < index && #[trigger] is_open_scope(*context, *cover, b)
                        ==> self.scopes.links@.contains(scope_of(*context, b)),
                forall|x: int|
                    0 <= x < scene.before_len() && (#[trigger] self.scopes.before@[x]) is Some
                        && start.scopes.before@[x] is None ==> x < index,
                forall|y: int|
                    0 <= y < scene.after_len() && (#[trigger] self.scopes.after@[y]) is Some
                        && start.scopes.after@[y] is None ==> (
                    context.links.partners.after@[y] matches Some(x) && x < index),
            decreases scene.before_len() - index,
        {
            let ghost fewer = self.scopes.links@;
            if let Some(after) = context.links.partners.before[index] {
                assert(context.links.partners.before@[index as int] == Some(after));
                if (index == context.before_unit
                    || scene.pair.before.nodes[index].is_scope_boundary())
                    && cover.partner[index].is_none() && !cover.after[after] {
                    let wrapper = unique_containment_reparenting(
                        scene.pair,
                        &context.links.partners.before,
                        &context.links.partners.after,
                        index,
                        after,
                    );
                    let parent = match wrapper {
                        Some(wrapper) => ParentCorrespondence::Reparented(wrapper),
                        None => ParentCorrespondence::Direct,
                    };
                    let ghost table = self.scopes;
                    let link = ScopeLink {
                        before: index,
                        after,
                        placement: context.links.placement[index],
                        parent,
                    };
                    let accepted = self.scopes.push_scope_link(link);
                    proof {
                        assert(context.links.partners.after@[after as int] == Some(index));
                        if table.before@[index as int] is None && table.after@[after as int] is None {
                            assert(self.scopes.links@ == table.links@.push(link));
                            assert(self.scopes.links@[table.links@.len() as int] == link);
                            assert(accepted);
                        }
                    }
                    if !accepted {
                        proof {
                            if table.before@[index as int] is Some {
                                assert(start.scopes.before@[index as int] is Some);
                            } else {
                                assert(table.after@[after as int] is Some);
                                assert(start.scopes.after@[after as int] is Some);
                            }
                            assert(is_open_scope(*context, *cover, index as int));
                            assert(scopes_conflict(*context, *cover, start.scopes));
                        }
                        self.scopes.forget_from(scope_start);
                        return false;
                    }
                    assert(self.scopes.links@.take(scope_start as int) =~= start.scopes.links@);
                    assert(link == scope_of(*context, index as int));
                    assert(is_open_scope(*context, *cover, index as int));
                }
            }
            proof {
                assert forall|b: int|
                    0 <= b < index + 1 && #[trigger] is_open_scope(*context, *cover, b) implies
                    self.scopes.links@.contains(scope_of(*context, b)) by {
                    if b < index {
                        assert(fewer.contains(scope_of(*context, b)));
                        let k = choose|k: int| 0 <= k < fewer.len() && fewer[k] == scope_of(*context, b);
                        assert(self.scopes.links@[k] == fewer[k]);
                    }
                }
            }
            index += 1;
        }
        proof {
            assert forall|k: int| 0 <= k < start.scopes.links@.len() implies (
            #[trigger] self.scopes.links@[k]) == start.scopes.links@[k] by {
                assert(self.scopes.links@.take(scope_start as int)[k] == self.scopes.links@[k]);
            }
        }
        true
    }

    /// Link the exact subtrees of a unit.
    #[verifier::rlimit(60)]
    #[verifier::spinoff_prover]
    fn link_composites(&mut self, context: &UnitContext<'_>, edges: &Vec<OrderedMatch>, cover: &Cover)
        requires
            context.wf(),
            old(self).wf(context.scene),
            exact_edges(*context, edges@),
            cover.wf(*context),
        ensures
            final(self).wf(context.scene),
            final(self).grows(*old(self)),
            exists|placements: Seq<Placement>| #[trigger]
                subtrees_linked(
                    *context,
                    *cover,
                    kept_edges(edges@, *cover),
                    placements,
                    *old(self),
                    *final(self),
                ),
    {
        let scene = &context.scene;
        let ghost inside = |edge: OrderedMatch|
            cover.partner@[edge.before as int] == Some(edge.after);
        let mut kept: Vec<OrderedMatch> = Vec::new();
        let mut index: usize = 0;
        proof {
            assert(edges@.take(0) =~= Seq::empty());
            reveal(Seq::filter);
        }
        while index < edges.len()
            invariant
                context.wf(),
                exact_edges(*context, edges@),
                cover.wf(*context),
                index <= edges@.len(),
                inside == (|edge: OrderedMatch|
                    cover.partner@[edge.before as int] == Some(edge.after)),
                kept@ == edges@.take(index as int).filter(inside),
                forall|k: int|
                    0 <= k < kept@.len() ==> (#[trigger] kept@[k]).before
                        < context.scene.before_len() && kept@[k].after < context.scene.after_len()
                        && context.scene.before.prints@[kept@[k].before as int].full
                        == context.scene.after.prints@[kept@[k].after as int].full,
            decreases edges@.len() - index,
        {
            let edge = edges[index];
            assert(edges@[index as int] == edge);
            proof {
                assert(edges@.take(index + 1) =~= edges@.take(index as int).push(edge));
                edges@.take(index as int).lemma_filter_push(edge, inside);
            }
            let covered = match cover.partner[edge.before] {
                Some(after) => after == edge.after,
                None => false,
            };
            if covered {
                kept.push(edge);
            }
            index += 1;
        }
        assert(edges@.take(edges@.len() as int) =~= edges@);
        assert(kept@ == kept_edges(edges@, *cover));
        let placements = match_placements(&kept);
        let mut added: Vec<NodeLink> = Vec::new();
        let mut position: usize = 0;
        while position < kept.len()
            invariant
                context.wf(),
                scene == &context.scene,
                cover.wf(*context),
                position <= kept@.len(),
                placements@.len() == kept@.len(),
                added@ == composite_links(
                    *context,
                    *cover,
                    kept@,
                    placements@,
                    position as int,
                ),
                composites_fit(added@, scene.before_len(), scene.after_len()),
                composites_agree(*scene, added@),
                forall|k: int|
                    0 <= k < kept@.len() ==> (#[trigger] kept@[k]).before
                        < context.scene.before_len() && kept@[k].after < context.scene.after_len()
                        && context.scene.before.prints@[kept@[k].before as int].full
                        == context.scene.after.prints@[kept@[k].after as int].full,
            decreases kept@.len() - position,
        {
            let edge = kept[position];
            assert(kept@[position as int] == edge);
            let placement = match context.decoration_placement(edge.before) {
                Some(placement) => placement,
                None => placements[position],
            };
            let wrapper = cover_wrapper(context, cover, edge.before);
            let inside = parents_covered(context, cover, edge);
            let parent = if inside {
                Some(ParentCorrespondence::Direct)
            } else {
                parent_correspondence(context, edge.before, edge.after)
            };
            if let Some(parent) = parent {
                added.push(
                    NodeLink { before: edge.before, after: edge.after, parent, wrapper, placement },
                );
            }
            position += 1;
        }
        let ghost start = *self;
        // Every surviving pair decides movement; the outermost ones alone could mistake
        // crossings in repeated syntax for a moved definition.
        let mut root: usize = 0;
        while root < cover.roots.len()
            invariant
                context.wf(),
                scene == &context.scene,
                cover.wf(*context),
                root <= cover.roots@.len(),
                self.wf(*scene),
                self.grows(start),
                self.composites == start.composites,
                composites_fit(added@, scene.before_len(), scene.after_len()),
                forall|k: int|
                    start.leaves.links@.len() <= k < self.leaves.links@.len()
                        ==> comes_from_subtree(
                        *scene,
                        added@,
                        cover.roots@,
                        #[trigger] self.leaves.links@[k],
                    ),
                forall|r: int, k: int|
                    0 <= r < root && 0 <= k < added@.len() && (#[trigger] cover.roots@[r]).before
                        == (#[trigger] added@[k]).before ==> is_first_link(added@, k)
                        ==> subtree_linked(*scene, added@[k], *self),
            decreases cover.roots@.len() - root,
        {
            let edge = cover.roots[root];
            let ghost earlier = *self;
            if let Some(link) = link_of(&added, edge.before) {
                let ghost at = choose|at: int|
                    0 <= at < added@.len() && #[trigger] added@[at] == link && is_first_link(
                        added@,
                        at,
                    );
                assert(link.before < scene.before_len() && link.after < scene.after_len());
                self.link_exact_subtree(scene, link);
                proof {
                    assert(is_root_link(cover.roots@, link)) by {
                        assert(cover.roots@[root as int].before == link.before);
                    }
                    assert forall|k: int|
                        start.leaves.links@.len() <= k < self.leaves.links@.len() implies
                        comes_from_subtree(
                        *scene,
                        added@,
                        cover.roots@,
                        #[trigger] self.leaves.links@[k],
                    ) by {
                        if k < earlier.leaves.links@.len() {
                            assert(self.leaves.links@[k] == earlier.leaves.links@[k]);
                        } else {
                            assert(is_subtree_leaf(*scene, added@[at], self.leaves.links@[k]));
                        }
                    }
                }
            }
            proof {
                assert forall|r: int, k: int|
                    0 <= r < root + 1 && 0 <= k < added@.len() && (
                    #[trigger] cover.roots@[r]).before == (#[trigger] added@[k]).before
                        && is_first_link(added@, k) implies subtree_linked(
                    *scene,
                    added@[k],
                    *self,
                ) by {
                    if r < root {
                        assert(subtree_linked(*scene, added@[k], earlier));
                        lemma_subtree_kept(*scene, added@[k], earlier, *self);
                    } else {
                        let at = choose|at: int|
                            0 <= at < added@.len() && (#[trigger] added@[at]).before == edge.before
                                && is_first_link(added@, at) && subtree_linked(
                                *scene,
                                added@[at],
                                *self,
                            );
                        assert(added@[at].before == added@[k].before);
                    }
                }
            }
            root += 1;
        }
        let ghost walked = *self;
        let mut next: usize = 0;
        while next < added.len()
            invariant
                next <= added@.len(),
                self.wf(*scene),
                self.grows(start),
                walked.composites == start.composites,
                self.composites@ == walked.composites@ + added@.take(next as int),
                self.leaves == walked.leaves,
                self.scopes == walked.scopes,
                composites_fit(added@, scene.before_len(), scene.after_len()),
                composites_agree(*scene, added@),
            decreases added@.len() - next,
        {
            self.composites.push(added[next]);
            assert(added@.take(next + 1) =~= added@.take(next as int).push(added@[next as int]));
            next += 1;
        }
        proof {
            assert(added@.take(added@.len() as int) =~= added@);
            assert forall|k: int|
                0 <= k < added@.len() && is_root_link(cover.roots@, #[trigger] added@[k]) implies
                subtree_linked(*scene, added@[k], *self) by {
                let r = choose|r: int|
                    0 <= r < cover.roots@.len() && (#[trigger] cover.roots@[r]).before
                        == added@[k].before;
                lemma_links_once(*context, *cover, edges@, kept@, placements@, added@, k);
                assert(cover.roots@[r].before == added@[k].before);
                assert(subtree_linked(*scene, added@[k], walked));
                assert(self.grows(walked));
                lemma_subtree_kept(*scene, added@[k], walked, *self);
            }
            assert(subtrees_linked(
                *context,
                *cover,
                kept_edges(edges@, *cover),
                placements@,
                start,
                *self,
            ));
        }
    }
}

/// No earlier link has the same before node.
spec fn is_first_link(links: Seq<NodeLink>, at: int) -> bool {
    forall|k: int| 0 <= k < at ==> (#[trigger] links[k]).before != links[at].before
}

/// Composite links ascend on the before side.
proof fn lemma_composites_ascend(
    context: UnitContext<'_>,
    cover: Cover,
    kept: Seq<OrderedMatch>,
    placements: Seq<Placement>,
    end: int,
)
    requires
        0 <= end <= kept.len(),
        forall|k: int, l: int|
            0 <= k < l < kept.len() ==> (#[trigger] kept[k]).before < (#[trigger] kept[l]).before,
    ensures
        ({
            let links = composite_links(context, cover, kept, placements, end);
            &&& forall|k: int|
                0 <= k < links.len() ==> end > 0 && (#[trigger] links[k]).before
                    <= kept[end - 1].before
            &&& forall|k: int, l: int|
                0 <= k < l < links.len() ==> (#[trigger] links[k]).before < (
                #[trigger] links[l]).before
        }),
    decreases end,
{
    if end > 0 {
        lemma_composites_ascend(context, cover, kept, placements, end - 1);
        if end > 1 {
            assert(kept[end - 2].before < kept[end - 1].before);
        }
    }
}

/// Filtering keeps an ascending list ascending.
proof fn lemma_filter_ascends(edges: Seq<OrderedMatch>, keep: spec_fn(OrderedMatch) -> bool)
    requires
        forall|k: int, l: int|
            0 <= k < l < edges.len() ==> (#[trigger] edges[k]).before < (#[trigger] edges[l]).before,
    ensures
        ({
            let kept = edges.filter(keep);
            &&& forall|k: int|
                0 <= k < kept.len() ==> edges.len() > 0 && (#[trigger] kept[k]).before
                    <= edges.last().before
            &&& forall|k: int, l: int|
                0 <= k < l < kept.len() ==> (#[trigger] kept[k]).before < (#[trigger] kept[l]).before
        }),
    decreases edges.len(),
{
    reveal(Seq::filter);
    if edges.len() > 0 {
        let rest = edges.drop_last();
        assert forall|k: int, l: int| 0 <= k < l < rest.len() implies (#[trigger] rest[k]).before < (
        #[trigger] rest[l]).before by {
            assert(edges[k].before < edges[l].before);
        }
        lemma_filter_ascends(rest, keep);
        if rest.len() > 0 {
            assert(edges[rest.len() - 1].before < edges[edges.len() - 1].before);
        }
        let kept = edges.filter(keep);
        let fewer = rest.filter(keep);
        assert(kept == if keep(edges.last()) {
            fewer.push(edges.last())
        } else {
            fewer
        });
        assert forall|k: int| 0 <= k < kept.len() implies edges.len() > 0 && (
        #[trigger] kept[k]).before <= edges.last().before by {
            if k < fewer.len() {
                assert(kept[k] == fewer[k]);
            }
        }
        assert forall|k: int, l: int| 0 <= k < l < kept.len() implies (#[trigger] kept[k]).before < (
        #[trigger] kept[l]).before by {
            assert(kept[k] == fewer[k]);
            if l < fewer.len() {
                assert(kept[l] == fewer[l]);
            }
        }
    }
}

/// Every added link is the first one of its node.
proof fn lemma_links_once(
    context: UnitContext<'_>,
    cover: Cover,
    edges: Seq<OrderedMatch>,
    kept: Seq<OrderedMatch>,
    placements: Seq<Placement>,
    links: Seq<NodeLink>,
    at: int,
)
    requires
        exact_edges(context, edges),
        kept == kept_edges(edges, cover),
        links == composite_links(context, cover, kept, placements, kept.len() as int),
        0 <= at < links.len(),
    ensures
        is_first_link(links, at),
{
    lemma_filter_ascends(
        edges,
        |edge: OrderedMatch| cover.partner@[edge.before as int] == Some(edge.after),
    );
    lemma_composites_ascend(context, cover, kept, placements, kept.len() as int);
}

/// The added link of a before node.
fn link_of(links: &Vec<NodeLink>, before: NodeId) -> (link: Option<NodeLink>)
    ensures
        link matches Some(link) ==> link.before == before && exists|at: int|
            0 <= at < links@.len() && #[trigger] links@[at] == link && is_first_link(links@, at),
        link is None ==> forall|k: int|
            0 <= k < links@.len() ==> (#[trigger] links@[k]).before != before,
{
    let mut index: usize = 0;
    while index < links.len()
        invariant
            index <= links@.len(),
            forall|k: int| 0 <= k < index ==> (#[trigger] links@[k]).before != before,
        decreases links@.len() - index,
    {
        if links[index].before == before {
            assert(links@[index as int].before == before && is_first_link(links@, index as int));
            return Some(links[index]);
        }
        index += 1;
    }
    None
}

/// Wrapper evidence of the exact subtree that covers a node.
fn cover_wrapper(context: &UnitContext<'_>, cover: &Cover, before: NodeId) -> (wrapper: Option<
    Reparenting,
>)
    requires
        context.wf(),
        cover.wf(*context),
        before < context.scene.before_len(),
    ensures
        wrapper == cover_wrapper_of(*context, *cover, before as int),
{
    match cover.root[before] {
        Some(root) => match context.links.partners.before[root] {
            Some(after) => context.enclosing_wrapper(root, after),
            None => None,
        },
        None => None,
    }
}

/// Whether the parents of a pair are covered by the same exact subtree.
fn parents_covered(context: &UnitContext<'_>, cover: &Cover, edge: OrderedMatch) -> (inside: bool)
    requires
        context.wf(),
        cover.wf(*context),
        edge.before < context.scene.before_len(),
        edge.after < context.scene.after_len(),
    ensures
        inside == (match (
            context.scene.pair.before.nodes@[edge.before as int].parent,
            context.scene.pair.after.nodes@[edge.after as int].parent,
        ) {
            (Some(before), Some(after)) => cover.partner@[before as int] == Some(after),
            _ => false,
        }),
{
    assert(crate::syntax::parent_holds(context.scene.pair.before.nodes@, edge.before as int));
    match (
        context.scene.pair.before.nodes[edge.before].parent,
        context.scene.pair.after.nodes[edge.after].parent,
    ) {
        (Some(before), Some(after)) => match cover.partner[before] {
            Some(partner) => partner == after,
            None => false,
        },
        _ => false,
    }
}

/// The leaves of the unit that have no link yet, in order.
pub open spec fn lists_open(
    tree: SyntaxTree,
    unit: int,
    claimed: Seq<Option<usize>>,
    ids: Seq<NodeId>,
) -> bool {
    &&& spread(ids)
    &&& forall|k: int|
        0 <= k < ids.len() ==> is_unit_leaf(tree, unit, (#[trigger] ids[k]) as int)
            && claimed[ids[k] as int] is None
    &&& forall|i: int|
        0 <= i < tree.nodes@.len() && #[trigger] is_unit_leaf(tree, unit, i) && claimed[i] is None
            ==> ids.contains(i as usize)
}

/// The edges are the pairs of partners, in before order.
pub open spec fn lists_pairs(partners: Partners, edges: Seq<OrderedMatch>) -> bool {
    &&& forall|k: int|
        0 <= k < edges.len() ==> (#[trigger] edges[k]).before < partners.before@.len()
            && partners.before@[edges[k].before as int] == Some(edges[k].after)
    &&& forall|d: int, e: int|
        0 <= d < e < edges.len() ==> (#[trigger] edges[d]).before < (#[trigger] edges[e]).before
    &&& forall|i: int|
        0 <= i < partners.before@.len() ==> ((#[trigger] partners.before@[i]) matches Some(j)
            ==> edges.contains(OrderedMatch { before: i as usize, after: j }))
}

/// Links of the first edges: those with evidence for their parents.
pub open spec fn stage_links(
    context: UnitContext<'_>,
    before: Seq<NodeId>,
    after: Seq<NodeId>,
    relation: LeafRelation,
    edges: Seq<OrderedMatch>,
    placements: Seq<Placement>,
    end: int,
) -> Seq<LeafLink>
    decreases end,
{
    if end <= 0 {
        Seq::empty()
    } else {
        let earlier = stage_links(context, before, after, relation, edges, placements, end - 1);
        let left = before[edges[end - 1].before as int];
        let right = after[edges[end - 1].after as int];
        match parent_of(context, left as int, right as int) {
            Some(parent) => earlier.push(
                LeafLink {
                    before: left,
                    after: right,
                    relation,
                    placement: placement_of(context, left as int, placements[end - 1]),
                    parent,
                    wrapper: context.wrapper_of(left as int, right as int),
                },
            ),
            None => earlier,
        }
    }
}

/// Partners with evidence for their parents are linked, and nothing else.
pub open spec fn leaves_linked(
    context: UnitContext<'_>,
    before: Seq<NodeId>,
    after: Seq<NodeId>,
    partners: Partners,
    relation: LeafRelation,
    edges: Seq<OrderedMatch>,
    placements: Seq<Placement>,
    earlier: LeafCorrespondence,
    later: LeafCorrespondence,
) -> bool {
    &&& lists_pairs(partners, edges)
    &&& placements.len() == edges.len()
    &&& places_longest(edges, placements)
    &&& later.links@ == earlier.links@ + stage_links(
        context,
        before,
        after,
        relation,
        edges,
        placements,
        edges.len() as int,
    )
}

/// The link of a leaf that is edited in place.
pub open spec fn edited_link(before: NodeId, after: NodeId) -> LeafLink {
    LeafLink {
        before,
        after,
        relation: LeafRelation::Modified,
        placement: Placement::Stable,
        parent: ParentCorrespondence::Direct,
        wrapper: None,
    }
}

/// Links of the first leaves edited in place whose ends have no link yet.
pub open spec fn edited_links(
    before: Seq<NodeId>,
    after: Seq<NodeId>,
    partners: Partners,
    leaves: LeafCorrespondence,
    end: int,
) -> Seq<LeafLink>
    decreases end,
{
    if end <= 0 {
        Seq::empty()
    } else {
        let earlier = edited_links(before, after, partners, leaves, end - 1);
        match partners.before@[end - 1] {
            Some(j) => {
                let link = edited_link(before[end - 1], after[j as int]);
                if is_open_pair(leaves, link) {
                    earlier.push(link)
                } else {
                    earlier
                }
            },
            None => earlier,
        }
    }
}

/// The open leaves of equal content are linked.
pub open spec fn is_exact_stage(
    context: UnitContext<'_>,
    before: Seq<NodeId>,
    after: Seq<NodeId>,
    partners: Partners,
    edges: Seq<OrderedMatch>,
    placements: Seq<Placement>,
    earlier: LeafCorrespondence,
    later: LeafCorrespondence,
) -> bool {
    &&& lists_open(
        context.scene.pair.before,
        context.before_unit as int,
        earlier.before@,
        before,
    )
    &&& lists_open(context.scene.pair.after, context.after_unit as int, earlier.after@, after)
    &&& steps_match_leaves(context, before, after, partners)
    &&& leaves_linked(
        context,
        before,
        after,
        partners,
        LeafRelation::Exact,
        edges,
        placements,
        earlier,
        later,
    )
}

/// The leaves that are left are linked where they were edited in place: documentation under what
/// it documents first, then everything else.
pub open spec fn is_edit_stage(
    context: UnitContext<'_>,
    before: Seq<NodeId>,
    after: Seq<NodeId>,
    documented: Partners,
    edges: Seq<OrderedMatch>,
    placements: Seq<Placement>,
    edited: Partners,
    earlier: LeafCorrespondence,
    middle: LeafCorrespondence,
    later: LeafCorrespondence,
) -> bool {
    &&& lists_open(
        context.scene.pair.before,
        context.before_unit as int,
        earlier.before@,
        before,
    )
    &&& lists_open(context.scene.pair.after, context.after_unit as int, earlier.after@, after)
    &&& edits_matched(context, before, after, true, documented)
    &&& leaves_linked(
        context,
        before,
        after,
        documented,
        LeafRelation::Modified,
        edges,
        placements,
        earlier,
        middle,
    )
    &&& edits_matched(context, before, after, false, edited)
    &&& later.links@ == middle.links@ + edited_links(
        before,
        after,
        edited,
        middle,
        before.len() as int,
    )
}

/// The open leaves of equal content are linked, whatever lists them.
pub open spec fn exact_leaves_linked(
    context: UnitContext<'_>,
    earlier: LeafCorrespondence,
    later: LeafCorrespondence,
) -> bool {
    exists|
        before: Seq<NodeId>,
        after: Seq<NodeId>,
        partners: Partners,
        edges: Seq<OrderedMatch>,
        placements: Seq<Placement>,
    | #[trigger]
        is_exact_stage(context, before, after, partners, edges, placements, earlier, later)
}

/// The leaves that are left are linked where they were edited in place.
pub open spec fn edited_leaves_linked(
    context: UnitContext<'_>,
    earlier: LeafCorrespondence,
    later: LeafCorrespondence,
) -> bool {
    exists|
        before: Seq<NodeId>,
        after: Seq<NodeId>,
        documented: Partners,
        edges: Seq<OrderedMatch>,
        placements: Seq<Placement>,
        edited: Partners,
        middle: LeafCorrespondence,
    | #[trigger]
        is_edit_stage(
            context,
            before,
            after,
            documented,
            edges,
            placements,
            edited,
            earlier,
            middle,
            later,
        )
}

/// Containers, exact subtrees, equal leaves and edited leaves are linked, in this order.
pub open spec fn are_linking_steps(
    context: UnitContext<'_>,
    edges: Seq<OrderedMatch>,
    cover: Cover,
    placements: Seq<Placement>,
    earlier: Builder,
    scoped: Builder,
    covered: Builder,
    exact: LeafCorrespondence,
    later: Builder,
) -> bool {
    &&& scoped.leaves == earlier.leaves
    &&& scoped.composites == earlier.composites
    &&& scopes_linked(context, cover, earlier.scopes.links@, scoped.scopes.links@)
    &&& covered.grows(scoped)
    &&& subtrees_linked(context, cover, kept_edges(edges, cover), placements, scoped, covered)
    &&& exact_leaves_linked(context, covered.leaves, exact)
    &&& edited_leaves_linked(context, exact, later.leaves)
    &&& later.composites == covered.composites
    &&& later.scopes == covered.scopes
    &&& contents_linked(context, later.leaves)
}

/// What linking the contents of two units adds: nothing where a container already belongs to
/// another pair, and else the links of all steps.
pub open spec fn is_unit_linking(
    context: UnitContext<'_>,
    edges: Seq<OrderedMatch>,
    cover: Cover,
    earlier: Builder,
    later: Builder,
) -> bool {
    &&& exact_edges(context, edges)
    &&& lists_exact_edges(context, edges)
    &&& is_cover(context, edges, cover)
    &&& ({
        ||| scopes_conflict(context, cover, earlier.scopes) && later.leaves == earlier.leaves
            && later.composites == earlier.composites && later.scopes.links@
            == earlier.scopes.links@
        ||| exists|
            placements: Seq<Placement>,
            scoped: Builder,
            covered: Builder,
            exact: LeafCorrespondence,
        | #[trigger]
            are_linking_steps(
                context,
                edges,
                cover,
                placements,
                earlier,
                scoped,
                covered,
                exact,
                later,
            )
    })
}

/// The contexts that two matched units are linked by.
pub open spec fn are_unit_contexts(
    scene: Scene<'_>,
    links: ContextLinks,
    before_unit: NodeId,
    after_unit: NodeId,
    placement: Placement,
) -> bool {
    &&& links.wf(scene.before_len(), scene.after_len())
    &&& links.placement@[before_unit as int] == placement
    &&& links_supported(scene, links, before_unit as int, after_unit as int)
    &&& unit_linked(scene, links, before_unit, after_unit)
    &&& are_unit_matches(scene, links, before_unit, after_unit)
}

/// The contents of two matched units are linked.
#[verifier::opaque]
pub open spec fn unit_contents_linked(
    scene: Scene<'_>,
    before_unit: NodeId,
    after_unit: NodeId,
    placement: Placement,
    earlier: Builder,
    later: Builder,
) -> bool {
    exists|links: ContextLinks, edges: Seq<OrderedMatch>, cover: Cover|
        are_unit_contexts(
            scene,
            links,
            before_unit,
            after_unit,
            placement,
        ) && #[trigger] is_unit_linking(
            UnitContext { scene, links: &links, before_unit, after_unit },
            edges,
            cover,
            earlier,
            later,
        )
}

/// Leaves of a unit that have no link yet.
fn open_leaves(tree: &SyntaxTree, unit: NodeId, claimed: &Vec<Option<usize>>) -> (ids: Vec<NodeId>)
    requires
        tree.wf(),
        tree.has_node(unit as int),
        claimed@.len() == tree.nodes@.len(),
    ensures
        indices_below(ids@, tree.nodes@.len() as int),
        forall|k: int| 0 <= k < ids@.len() ==> claimed@[(#[trigger] ids@[k]) as int] is None,
        spread(ids@),
        forall|i: int|
            0 <= i < tree.nodes@.len() && #[trigger] is_unit_leaf(*tree, unit as int, i)
                && claimed@[i] is None ==> ids@.contains(i as usize),
        lists_open(*tree, unit as int, claimed@, ids@),
{
    proof {
        lemma_subtree_fits(*tree, unit as int);
    }
    let all = tree.descendant_leaves(unit);
    let mut ids: Vec<NodeId> = Vec::new();
    let mut index: usize = 0;
    while index < all.len()
        invariant
            index <= all@.len(),
            claimed@.len() == tree.nodes@.len(),
            tree.nodes@[unit as int].subtree_end <= tree.nodes@.len(),
            tree.is_content_list(
                all@,
                unit as int,
                tree.nodes@[unit as int].subtree_end as int,
            ),
            indices_below(ids@, tree.nodes@.len() as int),
            forall|k: int| 0 <= k < ids@.len() ==> claimed@[(#[trigger] ids@[k]) as int] is None,
            spread(ids@),
            forall|k: int|
                0 <= k < ids@.len() ==> is_unit_leaf(
                    *tree,
                    unit as int,
                    (#[trigger] ids@[k]) as int,
                ),
            forall|k: int|
                0 <= k < ids@.len() && index < all@.len() ==> (#[trigger] ids@[k])
                    < all@[index as int],
            forall|k: int|
                0 <= k < index && claimed@[(#[trigger] all@[k]) as int] is None ==> ids@.contains(
                    all@[k],
                ),
        decreases all@.len() - index,
    {
        let id = all[index];
        assert(all@[index as int] == id);
        let ghost earlier = ids@;
        if claimed[id].is_none() {
            ids.push(id);
        }
        proof {
            lemma_kept_listed(earlier, ids@);
            if ids@.len() > earlier.len() {
                assert(ids@[ids@.len() - 1] == id);
            }
            if index + 1 < all@.len() {
                assert(all@[index as int] < all@[index + 1]);
            }
        }
        index += 1;
    }
    proof {
        assert(tree.nodes.len() <= usize::MAX);
        assert forall|i: int|
            0 <= i < tree.nodes@.len() && #[trigger] is_unit_leaf(*tree, unit as int, i)
                && claimed@[i] is None implies ids@.contains(i as usize) by {
            assert(tree.nodes@[i].is_content_leaf());
            assert(all@.contains(i as usize));
            let k = choose|k: int| 0 <= k < all@.len() && all@[k] == i as usize;
            assert(claimed@[all@[k] as int] is None);
        }
    }
    ids
}

/// Something relates the places of two leaves: linked parents, or a unique wrapper path.
pub open spec fn is_linkable(context: UnitContext<'_>, before: int, after: int) -> bool {
    parents_linked(
        context.scene,
        context.links.partners.before@,
        context.before_unit as int,
        context.after_unit as int,
        before,
        after,
    ) || reparenting_of(
        *context.scene.pair,
        context.links.partners.before@,
        context.links.partners.after@,
        before,
        after,
    ) is Some
}

/// Partners whose places relate are linked.
spec fn partners_linked(
    context: UnitContext<'_>,
    before: Seq<NodeId>,
    after: Seq<NodeId>,
    partners: Partners,
    leaves: LeafCorrespondence,
) -> bool {
    forall|i: int|
        0 <= i < before.len() ==> ((#[trigger] partners.before@[i]) matches Some(j) ==> (is_linkable(
            context,
            before[i] as int,
            after[j as int] as int,
        ) ==> leaves.before@[before[i] as int] is Some && leaves.after@[after[j as int] as int] is Some))
}

/// Two edges of a one-to-one pairing share no end.
proof fn lemma_edges_apart(edges: Seq<OrderedMatch>, partners: Partners, k: int, l: int)
    requires
        0 <= k < edges.len(),
        0 <= l < edges.len(),
        k != l,
        mutual(partners.before@, partners.after@),
        forall|e: int|
            0 <= e < edges.len() ==> (#[trigger] edges[e]).before < partners.before@.len()
                && edges[e].after < partners.after@.len()
                && partners.before@[edges[e].before as int] == Some(edges[e].after),
        forall|d: int, e: int|
            0 <= d < e < edges.len() ==> (#[trigger] edges[d]).before < (#[trigger] edges[e]).before,
    ensures
        edges[k].before != edges[l].before,
        edges[k].after != edges[l].after,
{
    if k < l {
        assert(edges[k].before < edges[l].before);
    } else {
        assert(edges[l].before < edges[k].before);
    }
    assert(partners.before@[edges[k].before as int] == Some(edges[k].after));
    assert(partners.before@[edges[l].before as int] == Some(edges[l].after));
    assert(partners.after@[edges[k].after as int] == Some(edges[k].before));
}

/// After the exact leaves are linked, of two leaves that belong together for sure one is.
proof fn lemma_contents_linked(
    context: UnitContext<'_>,
    open: LeafCorrespondence,
    before: Seq<NodeId>,
    after: Seq<NodeId>,
    partners: Partners,
    leaves: LeafCorrespondence,
)
    requires
        context.wf(),
        before.len() <= usize::MAX,
        after.len() <= usize::MAX,
        indices_below(before, context.scene.before_len()),
        indices_below(after, context.scene.after_len()),
        keeps(leaves.before@, open.before@),
        keeps(leaves.after@, open.after@),
        open.before@.len() == context.scene.before_len(),
        open.after@.len() == context.scene.after_len(),
        partners.wf(before.len() as int, after.len() as int),
        partners_placed(context, before, after, partners),
        leaves_exhausted(context, before, after, partners),
        partners_linked(context, before, after, partners, leaves),
        forall|i: int|
            0 <= i < context.scene.before_len() && #[trigger] is_unit_leaf(
                context.scene.pair.before,
                context.before_unit as int,
                i,
            ) && open.before@[i] is None ==> before.contains(i as usize),
        forall|i: int|
            0 <= i < context.scene.after_len() && #[trigger] is_unit_leaf(
                context.scene.pair.after,
                context.after_unit as int,
                i,
            ) && open.after@[i] is None ==> after.contains(i as usize),
        context.scene.before_len() <= usize::MAX,
        context.scene.after_len() <= usize::MAX,
    ensures
        contents_linked(context, leaves),
{
    lemma_subtree_fits(context.scene.pair.before, context.before_unit as int);
    lemma_subtree_fits(context.scene.pair.after, context.after_unit as int);
    assert forall|b: int, a: int|
        is_unit_leaf(context.scene.pair.before, context.before_unit as int, b) && is_unit_leaf(
            context.scene.pair.after,
            context.after_unit as int,
            a,
        ) && #[trigger] sure_leaves(context, b, a) && desired_parent_code(
            context,
            b,
        ) is Some implies leaves.before@[b] is Some || leaves.after@[a] is Some by {
        if open.before@[b] is None && open.after@[a] is None {
            assert(before.contains(b as usize) && after.contains(a as usize));
            let i = choose|i: int| 0 <= i < before.len() && before[i] == b as usize;
            let j = choose|j: int| 0 <= j < after.len() && after[j] == a as usize;
            assert(sure_leaves(context, before[i] as int, after[j] as int));
            assert(is_taken(partners, i, j));
            if partners.before@[i] is Some {
                let other = partners.before@[i]->0 as int;
                lemma_placed_links(context, b, after[other] as int);
            } else {
                let other = partners.after@[j]->0 as int;
                assert(partners.before@[other] == Some(j as usize));
                lemma_placed_links(context, before[other] as int, a);
            }
        }
    }
}

/// Leaves that are linked stay linked.
proof fn lemma_contents_grow(
    context: UnitContext<'_>,
    earlier: LeafCorrespondence,
    later: LeafCorrespondence,
)
    requires
        context.wf(),
        contents_linked(context, earlier),
        keeps(later.before@, earlier.before@),
        keeps(later.after@, earlier.after@),
        earlier.before@.len() == context.scene.before_len(),
        earlier.after@.len() == context.scene.after_len(),
    ensures
        contents_linked(context, later),
{
    lemma_subtree_fits(context.scene.pair.before, context.before_unit as int);
    lemma_subtree_fits(context.scene.pair.after, context.after_unit as int);
    assert forall|b: int, a: int|
        is_unit_leaf(context.scene.pair.before, context.before_unit as int, b) && is_unit_leaf(
            context.scene.pair.after,
            context.after_unit as int,
            a,
        ) && #[trigger] sure_leaves(context, b, a) && desired_parent_code(
            context,
            b,
        ) is Some implies later.before@[b] is Some || later.after@[a] is Some by {
        assert(earlier.before@[b] is Some || earlier.after@[a] is Some);
    }
}

/// A placed pair with a known parent is linkable.
proof fn lemma_placed_links(context: UnitContext<'_>, before: int, after: int)
    requires
        context.wf(),
        0 <= before < context.scene.before_len(),
        0 <= after < context.scene.after_len(),
        context.scene.after_len() <= usize::MAX,
        is_placed(context, before, after),
        desired_parent_code(context, before) is Some || parent_code(context, after) is Some,
    ensures
        is_linkable(context, before, after),
{
    assert(parent_holds(context.scene.pair.before.nodes@, before));
    assert(parent_holds(context.scene.pair.after.nodes@, after));
}

impl Builder {
    /// Link matched leaves.
    fn link_leaves(
        &mut self,
        context: &UnitContext<'_>,
        before: &Vec<NodeId>,
        after: &Vec<NodeId>,
        partners: &Partners,
        relation: LeafRelation,
    )
        requires
            context.wf(),
            old(self).wf(context.scene),
            indices_below(before@, context.scene.before_len()),
            indices_below(after@, context.scene.after_len()),
            partners.wf(before@.len() as int, after@.len() as int),
            relation == LeafRelation::Exact ==> prints_agree(*context, before@, after@, *partners),
            spread(before@),
            spread(after@),
            free_at(old(self).leaves.before@, before@),
            free_at(old(self).leaves.after@, after@),
        ensures
            final(self).wf(context.scene),
            final(self).grows(*old(self)),
            final(self).composites == old(self).composites,
            final(self).scopes == old(self).scopes,
            partners_linked(*context, before@, after@, *partners, final(self).leaves),
            exists|edges: Seq<OrderedMatch>, placements: Seq<Placement>| #[trigger]
                leaves_linked(
                    *context,
                    before@,
                    after@,
                    *partners,
                    relation,
                    edges,
                    placements,
                    old(self).leaves,
                    final(self).leaves,
                ),
    {
        let edges = crate::correspondence::recovery::edges_of(partners);
        let placements = match_placements(&edges);
        let ghost start = *self;
        let mut index: usize = 0;
        while index < edges.len()
            invariant
                context.wf(),
                self.wf(context.scene),
                self.grows(start),
                self.composites == start.composites,
                self.scopes == start.scopes,
                self.leaves.links@ == start.leaves.links@ + stage_links(
                    *context,
                    before@,
                    after@,
                    relation,
                    edges@,
                    placements@,
                    index as int,
                ),
                indices_below(before@, context.scene.before_len()),
                indices_below(after@, context.scene.after_len()),
                partners.wf(before@.len() as int, after@.len() as int),
                relation == LeafRelation::Exact ==> prints_agree(
                    *context,
                    before@,
                    after@,
                    *partners,
                ),
                index <= edges@.len(),
                placements@.len() == edges@.len(),
                forall|k: int|
                    0 <= k < edges@.len() ==> (#[trigger] edges@[k]).before < before@.len()
                        && edges@[k].after < after@.len()
                        && partners.before@[edges@[k].before as int] == Some(edges@[k].after),
                forall|d: int, e: int|
                    0 <= d < e < edges@.len() ==> (#[trigger] edges@[d]).before < (
                    #[trigger] edges@[e]).before,
                spread(before@),
                spread(after@),
                forall|k: int|
                    index <= k < edges@.len() ==> self.leaves.before@[before@[(
                    #[trigger] edges@[k]).before as int] as int] is None
                        && self.leaves.after@[after@[edges@[k].after as int] as int] is None,
                forall|k: int|
                    0 <= k < index && is_linkable(
                        *context,
                        before@[(#[trigger] edges@[k]).before as int] as int,
                        after@[edges@[k].after as int] as int,
                    ) ==> self.leaves.before@[before@[edges@[k].before as int] as int] is Some
                        && self.leaves.after@[after@[edges@[k].after as int] as int] is Some,
            decreases edges@.len() - index,
        {
            let edge = edges[index];
            assert(edges@[index as int] == edge);
            let left = before[edge.before];
            let right = after[edge.after];
            let ghost earlier = *self;
            proof {
                assert forall|k: int| 0 <= k < edges@.len() && k != index implies before@[(
                #[trigger] edges@[k]).before as int] != left && after@[edges@[k].after as int]
                    != right by {
                    lemma_edges_apart(edges@, *partners, k, index as int);
                    lemma_spread_apart(before@, edges@[k].before as int, edge.before as int);
                    lemma_spread_apart(after@, edges@[k].after as int, edge.after as int);
                }
            }
            let decorated = context.decoration_placement(left);
            let placement = match decorated {
                Some(placement) => placement,
                None => placements[index],
            };
            if let Some(parent) = parent_correspondence(context, left, right) {
                let wrapper = context.enclosing_wrapper(left, right);
                self.push_leaf(
                    &context.scene,
                    LeafLink { before: left, after: right, relation, placement, parent, wrapper },
                );
            }
            index += 1;
        }
        proof {
            assert(before.len() <= usize::MAX);
            assert forall|i: int|
                0 <= i < before@.len() implies ((
            #[trigger] partners.before@[i]) matches Some(j) ==> (is_linkable(
                *context,
                before@[i] as int,
                after@[j as int] as int,
            ) ==> self.leaves.before@[before@[i] as int] is Some
                && self.leaves.after@[after@[j as int] as int] is Some)) by {
                if let Some(j) = partners.before@[i] {
                    let edge = OrderedMatch { before: i as usize, after: j };
                    let k = choose|k: int| 0 <= k < edges@.len() && edges@[k] == edge;
                    assert(edges@[k].before == i as usize);
                }
            }
            assert(leaves_linked(
                *context,
                before@,
                after@,
                *partners,
                relation,
                edges@,
                placements@,
                start.leaves,
                self.leaves,
            ));
        }
    }

    /// Link leaves edited in place: same shape under matched parents.
    fn link_edited_leaves(
        &mut self,
        context: &UnitContext<'_>,
        before: &Vec<NodeId>,
        after: &Vec<NodeId>,
        partners: &Partners,
    )
        requires
            context.wf(),
            old(self).wf(context.scene),
            indices_below(before@, context.scene.before_len()),
            indices_below(after@, context.scene.after_len()),
            partners.wf(before@.len() as int, after@.len() as int),
            spread(before@),
            spread(after@),
        ensures
            final(self).wf(context.scene),
            final(self).grows(*old(self)),
            final(self).composites == old(self).composites,
            final(self).scopes == old(self).scopes,
            final(self).leaves.links@ == old(self).leaves.links@ + edited_links(
                before@,
                after@,
                *partners,
                old(self).leaves,
                before@.len() as int,
            ),
    {
        let ghost start = *self;
        let mut index: usize = 0;
        while index < partners.before.len()
            invariant
                context.wf(),
                self.wf(context.scene),
                self.grows(start),
                self.composites == start.composites,
                self.scopes == start.scopes,
                spread(before@),
                spread(after@),
                self.leaves.links@ == start.leaves.links@ + edited_links(
                    before@,
                    after@,
                    *partners,
                    start.leaves,
                    index as int,
                ),
                forall|i: int|
                    index <= i < before@.len() ==> ((#[trigger] partners.before@[i]) matches Some(j)
                        ==> self.leaves.before@[before@[i] as int]
                        == start.leaves.before@[before@[i] as int]
                        && self.leaves.after@[after@[j as int] as int]
                        == start.leaves.after@[after@[j as int] as int]),
                indices_below(before@, context.scene.before_len()),
                indices_below(after@, context.scene.after_len()),
                partners.wf(before@.len() as int, after@.len() as int),
                index <= before@.len(),
            decreases before@.len() - index,
        {
            if let Some(found) = partners.before[index] {
                assert(partners.before@[index as int] == Some(found));
                proof {
                    assert forall|i: int| index < i < before@.len() implies ((
                    #[trigger] partners.before@[i]) matches Some(j) ==> before@[i]
                        != before@[index as int] && after@[j as int] != after@[found as int]) by {
                        if let Some(j) = partners.before@[i] {
                            lemma_spread_apart(before@, i, index as int);
                            assert(j != found) by {
                                assert(before.len() <= usize::MAX);
                                assert(partners.after@[j as int] == Some(i as usize));
                                assert(partners.after@[found as int] == Some(index));
                            }
                            lemma_spread_apart(after@, j as int, found as int);
                        }
                    }
                }
                self.push_leaf(
                    &context.scene,
                    LeafLink {
                        before: before[index],
                        after: after[found],
                        relation: LeafRelation::Modified,
                        placement: Placement::Stable,
                        parent: ParentCorrespondence::Direct,
                        wrapper: None,
                    },
                );
            }
            index += 1;
        }
    }

    /// Link the contents of two matched units.
    pub fn link_unit_contents(
        &mut self,
        scene: &Scene<'_>,
        before_unit: NodeId,
        after_unit: NodeId,
        placement: Placement,
    )
        requires
            scene.wf(),
            old(self).wf(*scene),
            before_unit < scene.before_len(),
            after_unit < scene.after_len(),
        ensures
            final(self).wf(*scene),
            final(self).grows(*old(self)),
            unit_contents_linked(
                *scene,
                before_unit,
                after_unit,
                placement,
                *old(self),
                *final(self),
            ),
            is_flat(scene.pair.before) ==> final(self).composites@ == old(self).composites@,
    {
        let ghost start = *self;
        let links = contextual_links(scene, before_unit, after_unit, placement);
        let context = UnitContext { scene: *scene, links: &links, before_unit, after_unit };
        let edges = exact_composite_matches(&context);
        let cover = exact_cover(&context, &edges);
        if !self.link_scopes(&context, &cover) {
            proof {
                reveal(unit_contents_linked);
                assert(is_unit_linking(context, edges@, cover, start, *self));
            }
            return ;
        }
        let ghost scoped = *self;
        self.link_composites(&context, &edges, &cover);
        let ghost covered = *self;
        self.link_equal_leaves(&context);
        let ghost exact = *self;
        self.link_changed_leaves(&context);
        proof {
            lemma_contents_grow(context, exact.leaves, self.leaves);
            let placements = choose|placements: Seq<Placement>| #[trigger]
                subtrees_linked(
                    context,
                    cover,
                    kept_edges(edges@, cover),
                    placements,
                    scoped,
                    covered,
                );
            assert(are_linking_steps(
                context,
                edges@,
                cover,
                placements,
                start,
                scoped,
                covered,
                exact.leaves,
                *self,
            ));
            reveal(unit_contents_linked);
            assert(is_unit_linking(context, edges@, cover, start, *self));
            if is_flat(scene.pair.before) {
                lemma_flat_edges(context, edges@);
                assert(kept_edges(edges@, cover) =~= Seq::empty()) by {
                    reveal(Seq::filter);
                }
                assert(self.composites@ =~= start.composites@);
            }
        }
    }

    /// Link the open leaves of equal content.
    #[verifier::rlimit(60)]
    #[verifier::spinoff_prover]
    fn link_equal_leaves(&mut self, context: &UnitContext<'_>)
        requires
            context.wf(),
            old(self).wf(context.scene),
        ensures
            final(self).wf(context.scene),
            final(self).grows(*old(self)),
            final(self).composites == old(self).composites,
            final(self).scopes == old(self).scopes,
            exact_leaves_linked(*context, old(self).leaves, final(self).leaves),
            contents_linked(*context, final(self).leaves),
    {
        let scene = &context.scene;
        let ghost open = *self;
        let before_leaves = open_leaves(
            &scene.pair.before,
            context.before_unit,
            &self.leaves.before,
        );
        let after_leaves = open_leaves(&scene.pair.after, context.after_unit, &self.leaves.after);
        let claimed = Claimed { before: &self.leaves.before, after: &self.leaves.after };
        let exact = exact_leaf_matches(context, &claimed, &before_leaves, &after_leaves);
        assert(scene.pair.before.nodes.len() <= usize::MAX && scene.pair.after.nodes.len()
            <= usize::MAX);
        assert(before_leaves.len() <= usize::MAX && after_leaves.len() <= usize::MAX);
        self.link_leaves(context, &before_leaves, &after_leaves, &exact, LeafRelation::Exact);
        proof {
            lemma_contents_linked(
                *context,
                open.leaves,
                before_leaves@,
                after_leaves@,
                exact,
                self.leaves,
            );
            let (edges, placements) = choose|edges: Seq<OrderedMatch>, placements: Seq<Placement>|
                #[trigger]
                leaves_linked(
                    *context,
                    before_leaves@,
                    after_leaves@,
                    exact,
                    LeafRelation::Exact,
                    edges,
                    placements,
                    open.leaves,
                    self.leaves,
                );
            assert(is_exact_stage(
                *context,
                before_leaves@,
                after_leaves@,
                exact,
                edges,
                placements,
                open.leaves,
                self.leaves,
            ));
        }
    }

    /// Link the leaves that are left where they were edited in place.
    fn link_changed_leaves(&mut self, context: &UnitContext<'_>)
        requires
            context.wf(),
            old(self).wf(context.scene),
        ensures
            final(self).wf(context.scene),
            final(self).grows(*old(self)),
            final(self).composites == old(self).composites,
            final(self).scopes == old(self).scopes,
            edited_leaves_linked(*context, old(self).leaves, final(self).leaves),
    {
        let scene = &context.scene;
        let ghost open = *self;
        let before_rest = open_leaves(&scene.pair.before, context.before_unit, &self.leaves.before);
        let after_rest = open_leaves(&scene.pair.after, context.after_unit, &self.leaves.after);
        let documented = edited_leaf_matches(context, &before_rest, &after_rest, true);
        self.link_leaves(context, &before_rest, &after_rest, &documented, LeafRelation::Modified);
        let ghost middle = *self;
        let edited = edited_leaf_matches(context, &before_rest, &after_rest, false);
        self.link_edited_leaves(context, &before_rest, &after_rest, &edited);
        proof {
            let (edges, placements) = choose|edges: Seq<OrderedMatch>, placements: Seq<Placement>|
                #[trigger]
                leaves_linked(
                    *context,
                    before_rest@,
                    after_rest@,
                    documented,
                    LeafRelation::Modified,
                    edges,
                    placements,
                    open.leaves,
                    middle.leaves,
                );
            assert(is_edit_stage(
                *context,
                before_rest@,
                after_rest@,
                documented,
                edges,
                placements,
                edited,
                open.leaves,
                middle.leaves,
                self.leaves,
            ));
        }
    }
}

} // verus!

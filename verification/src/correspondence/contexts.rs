//! Paired contexts of one unit, and proofs that a context was wrapped or unwrapped.

use crate::correspondence::facts::Facts;
use crate::correspondence::links::{Placement, Reparenting};
use crate::correspondence::partners::Partners;
use crate::syntax::{
    children_hold, node_fits, parent_holds, CorrespondenceRole, NodeId, SyntaxNode, SyntaxPair,
    SyntaxTree,
};
use vstd::prelude::*;

verus! {

/// Both trees with their interned facts.
#[derive(Clone, Copy)]
pub struct Scene<'a> {
    pub pair: &'a SyntaxPair,
    pub before: &'a Facts,
    pub after: &'a Facts,
}

impl Scene<'_> {
    /// The trees are consistent and the facts fit them.
    pub open spec fn wf(self) -> bool {
        &&& self.pair.wf()
        &&& self.before.fits(self.pair.before)
        &&& self.after.fits(self.pair.after)
    }

    /// Number of before nodes.
    pub open spec fn before_len(self) -> int {
        self.pair.before.nodes@.len() as int
    }

    /// Number of after nodes.
    pub open spec fn after_len(self) -> int {
        self.pair.after.nodes@.len() as int
    }
}

/// Parent pairs established before matching leaves, with their evidence by before node.
pub struct ContextLinks {
    pub partners: Partners,
    pub placement: Vec<Placement>,
    pub reparenting: Vec<Option<Reparenting>>,
}

impl ContextLinks {
    /// Every node has at most one partner, and every before node has an evidence entry.
    pub open spec fn wf(self, before_len: int, after_len: int) -> bool {
        &&& self.partners.wf(before_len, after_len)
        &&& self.placement@.len() == before_len
        &&& self.reparenting@.len() == before_len
    }

    /// No contexts yet.
    pub fn new(before_len: usize, after_len: usize) -> (links: ContextLinks)
        ensures
            links.wf(before_len as int, after_len as int),
            forall|i: int| 0 <= i < before_len ==> (#[trigger] links.partners.before@[i]) is None,
    {
        let mut placement: Vec<Placement> = Vec::new();
        let mut reparenting: Vec<Option<Reparenting>> = Vec::new();
        let mut index: usize = 0;
        while index < before_len
            invariant
                index <= before_len,
                placement@.len() == index,
                reparenting@.len() == index,
            decreases before_len - index,
        {
            placement.push(Placement::Stable);
            reparenting.push(None);
            index += 1;
        }
        ContextLinks { partners: Partners::new(before_len, after_len), placement, reparenting }
    }

    /// Claim a pair, accepting an existing link only if its placement and wrapper evidence also
    /// agree.
    pub fn link_context(
        &mut self,
        before: NodeId,
        after: NodeId,
        placement: Placement,
        reparenting: Option<Reparenting>,
    ) -> (linked: bool)
        requires
            old(self).wf(old(self).placement@.len() as int, old(self).partners.after@.len() as int),
            before < old(self).placement@.len(),
            after < old(self).partners.after@.len(),
        ensures
            final(self).wf(
                old(self).placement@.len() as int,
                old(self).partners.after@.len() as int,
            ),
            final(self).partners.grows(old(self).partners),
            linked ==> final(self).partners.before@[before as int] == Some(after),
            linked <==> (old(self).partners.before@[before as int] is None
                && old(self).partners.after@[after as int] is None) || (
            old(self).partners.before@[before as int] == Some(after)
                && old(self).placement@[before as int] == placement
                && old(self).reparenting@[before as int] == reparenting),
            old(self).partners.before@[before as int] is Some
                || old(self).partners.after@[after as int] is Some ==> *final(self) == *old(self),
            forall|i: int|
                0 <= i < old(self).placement@.len() && i != before ==> (
                #[trigger] final(self).partners.before@[i]) == old(self).partners.before@[i],
            old(self).partners.before@[before as int] is None
                && old(self).partners.after@[after as int] is None ==> final(self).placement@
                == old(self).placement@.update(before as int, placement),
    {
        if self.partners.before[before].is_some() || self.partners.after[after].is_some() {
            let same = match self.partners.before[before] {
                Some(existing) => existing == after,
                None => false,
            };
            return same && self.placement[before] == placement && self.reparenting[before]
                == reparenting;
        }
        let claimed = self.partners.claim(before, after);
        self.placement.set(before, placement);
        self.reparenting.set(before, reparenting);
        true
    }

    /// Partner of a before node.
    pub fn after_of(&self, before: NodeId) -> (after: Option<NodeId>)
        requires
            before < self.partners.before@.len(),
        ensures
            after == self.partners.before@[before as int],
    {
        self.partners.before[before]
    }
}

/// A node that wrapper recovery may not pass beside.
pub open spec fn is_fence(node: SyntaxNode, partner: Option<usize>) -> bool {
    ||| partner is Some
    ||| node.correspondence == CorrespondenceRole::HardOwner
    ||| node.review is Some
    ||| node.decoration_owner is Some
}

/// A subtree that holds a matched owner, a sealed node, a review boundary, or a decoration.
pub open spec fn has_fence(tree: SyntaxTree, partner: Seq<Option<usize>>, root: int) -> bool {
    exists|i: int|
        root <= i < tree.nodes@[root].subtree_end && is_fence(#[trigger] tree.nodes@[i], partner[i])
}

/// Whether a subtree holds a fence.
pub fn subtree_contains_fence(tree: &SyntaxTree, partner: &Vec<Option<usize>>, root: NodeId) -> (found:
    bool)
    requires
        tree.wf(),
        partner@.len() == tree.nodes@.len(),
        tree.has_node(root as int),
    ensures
        found == has_fence(*tree, partner@, root as int),
{
    assert(node_fits(
        tree.nodes@[root as int],
        root as int,
        tree.nodes@.len() as int,
        tree.source.data().len() as int,
    ));
    let end = tree.nodes[root].subtree_end;
    let mut index: usize = root;
    while index < end
        invariant
            root <= index <= end <= tree.nodes@.len(),
            partner@.len() == tree.nodes@.len(),
            end == tree.nodes@[root as int].subtree_end,
            forall|i: int|
                root <= i < index ==> !is_fence(#[trigger] tree.nodes@[i], partner@[i]),
        decreases end - index,
    {
        let node = &tree.nodes[index];
        if partner[index].is_some() || node.seals_wrappers() || node.review.is_some()
            || node.decoration_owner.is_some() {
            assert(is_fence(tree.nodes@[index as int], partner@[index as int]));
            return true;
        }
        index += 1;
    }
    false
}

/// Some branch other than the one climbed from holds a fence.
pub open spec fn beside_fence(
    tree: SyntaxTree,
    partner: Seq<Option<usize>>,
    at: int,
    branch: int,
) -> bool {
    exists|k: int|
        0 <= k < tree.nodes@[at].children@.len() && (#[trigger] tree.nodes@[at].children@[k])
            != branch && has_fence(tree, partner, tree.nodes@[at].children@[k] as int)
}

/// Whether some branch other than the one climbed from holds a fence.
pub fn sibling_fence(
    tree: &SyntaxTree,
    partner: &Vec<Option<usize>>,
    at: NodeId,
    branch: NodeId,
) -> (found: bool)
    requires
        tree.wf(),
        partner@.len() == tree.nodes@.len(),
        tree.has_node(at as int),
    ensures
        found == beside_fence(*tree, partner@, at as int, branch as int),
{
    let mut position: usize = 0;
    while position < tree.nodes[at].children.len()
        invariant
            tree.wf(),
            partner@.len() == tree.nodes@.len(),
            tree.has_node(at as int),
            position <= tree.nodes@[at as int].children@.len(),
            forall|k: int|
                0 <= k < position ==> (#[trigger] tree.nodes@[at as int].children@[k]) == branch
                    || !has_fence(*tree, partner@, tree.nodes@[at as int].children@[k] as int),
        decreases tree.nodes@[at as int].children@.len() - position,
    {
        let child = tree.nodes[at].children[position];
        proof {
            assert(children_hold(tree.nodes@, at as int));
            assert(tree.nodes@[at as int].children[position as int] == child);
            assert(node_fits(
                tree.nodes@[at as int],
                at as int,
                tree.nodes@.len() as int,
                tree.source.data().len() as int,
            ));
        }
        if child != branch && subtree_contains_fence(tree, partner, child) {
            return true;
        }
        position += 1;
    }
    false
}

/// An ancestor at which the climb may stop.
pub open spec fn stops_at(partner: Seq<Option<usize>>, outer: Option<usize>, at: int) -> bool {
    match outer {
        Some(outer) => at == outer,
        None => partner[at] is Some,
    }
}

/// Climb from a branch to the closest stop, without passing a sealed node or beside a fence.
pub open spec fn path_from(
    tree: SyntaxTree,
    partner: Seq<Option<usize>>,
    outer: Option<usize>,
    branch: int,
    at: int,
    crossed: bool,
) -> Option<(int, bool)>
    decreases at,
{
    let stop = stops_at(partner, outer, at);
    if stop && partner[at] is Some {
        Some((at, crossed))
    } else if tree.nodes@[at].correspondence == CorrespondenceRole::HardOwner || beside_fence(
        tree,
        partner,
        at,
        branch,
    ) {
        None
    } else if stop {
        Some((at, true))
    } else {
        match tree.nodes@[at].parent {
            Some(parent) => if parent < at {
                path_from(tree, partner, outer, at, parent as int, true)
            } else {
                None
            },
            None => None,
        }
    }
}

/// The anchor of a node, and whether unmatched parents lie between.
pub open spec fn containment_path(
    tree: SyntaxTree,
    partner: Seq<Option<usize>>,
    outer: Option<usize>,
    node: int,
) -> Option<(int, bool)> {
    match tree.nodes@[node].parent {
        Some(parent) => path_from(tree, partner, outer, node, parent as int, false),
        None => None,
    }
}

/// Find an ancestor anchor without crossing a competing owner or sealed wrapper.
/// The flag records whether the path includes unmatched parents.
pub fn unique_containment_path(
    tree: &SyntaxTree,
    partner: &Vec<Option<usize>>,
    outer: Option<usize>,
    node: NodeId,
) -> (path: Option<(NodeId, bool)>)
    requires
        tree.wf(),
        partner@.len() == tree.nodes@.len(),
        tree.has_node(node as int),
    ensures
        match path {
            Some((anchor, crossed)) => containment_path(*tree, partner@, outer, node as int)
                == Some((anchor as int, crossed)) && anchor < node,
            None => containment_path(*tree, partner@, outer, node as int) is None,
        },
{
    assert(parent_holds(tree.nodes@, node as int));
    let mut branch = node;
    let mut at = match tree.nodes[node].parent {
        None => {
            return None;
        },
        Some(parent) => parent,
    };
    let mut crossed: bool = false;
    loop
        invariant
            tree.wf(),
            partner@.len() == tree.nodes@.len(),
            tree.has_node(node as int),
            at < node,
            containment_path(*tree, partner@, outer, node as int) == path_from(
                *tree,
                partner@,
                outer,
                branch as int,
                at as int,
                crossed,
            ),
        decreases at,
    {
        let stop = match outer {
            Some(outer) => at == outer,
            None => partner[at].is_some(),
        };
        if stop && partner[at].is_some() {
            return Some((at, crossed));
        }
        if tree.nodes[at].seals_wrappers() || sibling_fence(tree, partner, at, branch) {
            return None;
        }
        if stop {
            return Some((at, true));
        }
        assert(parent_holds(tree.nodes@, at as int));
        match tree.nodes[at].parent {
            None => {
                return None;
            },
            Some(parent) => {
                branch = at;
                at = parent;
                crossed = true;
            },
        }
    }
}

/// A wrapper was inserted or removed around a pair: the closest matched ancestors are
/// partners, and only one side has unmatched parents in between.
pub open spec fn reparenting_of(
    pair: SyntaxPair,
    before_partner: Seq<Option<usize>>,
    after_partner: Seq<Option<usize>>,
    before: int,
    after: int,
) -> Option<Reparenting> {
    match (
        containment_path(pair.before, before_partner, None, before),
        containment_path(pair.after, after_partner, None, after),
    ) {
        (Some((before_anchor, before_crossed)), Some((after_anchor, after_crossed))) => {
            if before_partner[before_anchor] != Some(after_anchor as usize)
                || after_partner[after_anchor] != Some(before_anchor as usize) {
                None
            } else if after_crossed && !before_crossed {
                Some(Reparenting::Wrapped)
            } else if before_crossed && !after_crossed {
                Some(Reparenting::Unwrapped)
            } else {
                None
            }
        },
        _ => None,
    }
}

/// Prove a wrap or unwrap through a single chain of unmatched parents.
/// The nearest matched ancestors must be partners. Along the chain, sibling branches
/// cannot contain matched owners or review boundaries. Only one revision may add
/// unmatched parents; replacing wrappers on both sides remains a structural edit.
pub fn unique_containment_reparenting(
    pair: &SyntaxPair,
    before_partner: &Vec<Option<usize>>,
    after_partner: &Vec<Option<usize>>,
    before: NodeId,
    after: NodeId,
) -> (reparenting: Option<Reparenting>)
    requires
        pair.wf(),
        before_partner@.len() == pair.before.nodes@.len(),
        after_partner@.len() == pair.after.nodes@.len(),
        pair.before.has_node(before as int),
        pair.after.has_node(after as int),
    ensures
        reparenting == reparenting_of(
            *pair,
            before_partner@,
            after_partner@,
            before as int,
            after as int,
        ),
{
    let (before_anchor, before_crossed) = match unique_containment_path(
        &pair.before,
        before_partner,
        None,
        before,
    ) {
        None => {
            return None;
        },
        Some(path) => path,
    };
    let (after_anchor, after_crossed) = match unique_containment_path(
        &pair.after,
        after_partner,
        None,
        after,
    ) {
        None => {
            return None;
        },
        Some(path) => path,
    };
    let before_agrees = match before_partner[before_anchor] {
        Some(partner) => partner == after_anchor,
        None => false,
    };
    let after_agrees = match after_partner[after_anchor] {
        Some(partner) => partner == before_anchor,
        None => false,
    };
    if !before_agrees || !after_agrees {
        return None;
    }
    if after_crossed && !before_crossed {
        Some(Reparenting::Wrapped)
    } else if before_crossed && !after_crossed {
        Some(Reparenting::Unwrapped)
    } else {
        None
    }
}

/// Whether two nodes sit in the same field of matched parents, or are the unit itself.
pub open spec fn parents_linked(
    scene: Scene<'_>,
    partner: Seq<Option<usize>>,
    before_unit: int,
    after_unit: int,
    before: int,
    after: int,
) -> bool {
    &&& scene.before.symbols@[before].slot == scene.after.symbols@[after].slot
    &&& if before == before_unit && after == after_unit {
        true
    } else {
        match (scene.pair.before.nodes@[before].parent, scene.pair.after.nodes@[after].parent) {
            (Some(before_parent), Some(after_parent)) => partner[before_parent as int] == Some(
                after_parent,
            ),
            (None, None) => true,
            _ => false,
        }
    }
}

/// What the leaf and context matchers know of one unit.
#[derive(Clone, Copy)]
pub struct UnitContext<'a> {
    pub scene: Scene<'a>,
    pub links: &'a ContextLinks,
    pub before_unit: NodeId,
    pub after_unit: NodeId,
}

impl UnitContext<'_> {
    /// The links fit the trees and the unit lies in them.
    pub open spec fn wf(self) -> bool {
        &&& self.scene.wf()
        &&& self.links.wf(self.scene.before_len(), self.scene.after_len())
        &&& self.before_unit < self.scene.before_len()
        &&& self.after_unit < self.scene.after_len()
    }

    pub fn parents_are_linked(&self, before: NodeId, after: NodeId) -> (result: bool)
        requires
            self.wf(),
            before < self.scene.before_len(),
            after < self.scene.after_len(),
        ensures
            result == parents_linked(
                self.scene,
                self.links.partners.before@,
                self.before_unit as int,
                self.after_unit as int,
                before as int,
                after as int,
            ),
    {
        if self.scene.before.symbols[before].slot != self.scene.after.symbols[after].slot {
            return false;
        }
        if before == self.before_unit && after == self.after_unit {
            return true;
        }
        assert(parent_holds(self.scene.pair.before.nodes@, before as int));
        match self.scene.pair.before.nodes[before].parent {
            Some(before_parent) => match self.scene.pair.after.nodes[after].parent {
                Some(after_parent) => match self.links.partners.before[before_parent] {
                    Some(partner) => partner == after_parent,
                    None => false,
                },
                None => false,
            },
            None => self.scene.pair.after.nodes[after].parent.is_none(),
        }
    }

    /// Wrapper evidence of a pair: its own, that of its parent, or a unique containment path.
    pub open spec fn wrapper_of(self, before: int, after: int) -> Option<Reparenting> {
        let links = *self.links;
        let fresh = reparenting_of(
            *self.scene.pair,
            links.partners.before@,
            links.partners.after@,
            before,
            after,
        );
        if links.partners.before@[before] is Some && links.reparenting@[before] is Some {
            links.reparenting@[before]
        } else {
            match self.scene.pair.before.nodes@[before].parent {
                Some(parent) => if links.partners.before@[parent as int] is Some
                    && links.reparenting@[parent as int] is Some {
                    links.reparenting@[parent as int]
                } else {
                    fresh
                },
                None => fresh,
            }
        }
    }

    /// Wrapper evidence of a node, of its parent's link, or of a fresh containment proof.
    pub fn enclosing_wrapper(&self, before: NodeId, after: NodeId) -> (wrapper: Option<Reparenting>)
        requires
            self.wf(),
            before < self.scene.before_len(),
            after < self.scene.after_len(),
        ensures
            wrapper == self.wrapper_of(before as int, after as int),
    {
        if self.links.partners.before[before].is_some() && self.links.reparenting[before].is_some() {
            return self.links.reparenting[before];
        }
        assert(parent_holds(self.scene.pair.before.nodes@, before as int));
        if let Some(parent) = self.scene.pair.before.nodes[before].parent {
            if self.links.partners.before[parent].is_some()
                && self.links.reparenting[parent].is_some() {
                return self.links.reparenting[parent];
            }
        }
        unique_containment_reparenting(
            self.scene.pair,
            &self.links.partners.before,
            &self.links.partners.after,
            before,
            after,
        )
    }

    /// Partner that a decoration's owner asks for.
    pub fn desired_after_decoration_owner(&self, before: NodeId) -> (owner: Option<NodeId>)
        requires
            self.wf(),
            before < self.scene.before_len(),
        ensures
            owner == match self.scene.pair.before.nodes@[before as int].decoration_owner {
                None => None,
                Some(found) => if found == self.before_unit {
                    Some(self.after_unit)
                } else {
                    self.links.partners.before@[found as int]
                },
            },
    {
        assert(node_fits(
            self.scene.pair.before.nodes@[before as int],
            before as int,
            self.scene.before_len(),
            self.scene.pair.before.source.data().len() as int,
        ));
        match self.scene.pair.before.nodes[before].decoration_owner {
            None => None,
            Some(owner) => if owner == self.before_unit {
                Some(self.after_unit)
            } else {
                self.links.partners.before[owner]
            },
        }
    }

    /// Placement of a decoration's owner.
    pub fn decoration_placement(&self, before: NodeId) -> (placement: Option<Placement>)
        requires
            self.wf(),
            before < self.scene.before_len(),
        ensures
            placement == match self.scene.pair.before.nodes@[before as int].decoration_owner {
                Some(owner) => if self.links.partners.before@[owner as int] is Some {
                    Some(self.links.placement@[owner as int])
                } else {
                    None
                },
                None => None,
            },
    {
        assert(node_fits(
            self.scene.pair.before.nodes@[before as int],
            before as int,
            self.scene.before_len(),
            self.scene.pair.before.source.data().len() as int,
        ));
        match self.scene.pair.before.nodes[before].decoration_owner {
            None => None,
            Some(owner) => if self.links.partners.before[owner].is_some() {
                Some(self.links.placement[owner])
            } else {
                None
            },
        }
    }
}

} // verus!

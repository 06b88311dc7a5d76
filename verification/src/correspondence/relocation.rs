//! Find exact subtrees that moved between surviving owners.

use crate::correspondence::contexts::{sibling_fence, Scene};
use crate::correspondence::links::{MatchedUnit, RelocatedNode, UnitEdit};
use crate::correspondence::partners::nothing;
use crate::correspondence::tree::{edit_fits, TreeDiff};
use crate::syntax::{node_fits, parent_holds, CorrespondenceRole, NodeId, SyntaxTree};
use crate::correspondence::facts::{Facts, NodeFingerprints};
use std::collections::HashMap;
use vstd::prelude::*;

verus! {

/// Paired owners in both directions.
pub struct OwnerPairs {
    pub before: Vec<Option<usize>>,
    pub after: Vec<Option<usize>>,
}

impl OwnerPairs {
    pub open spec fn fits(self, before_len: int, after_len: int) -> bool {
        &&& self.before@.len() == before_len
        &&& self.after@.len() == after_len
        &&& forall|i: int|
            0 <= i < self.before@.len() ==> ((#[trigger] self.before@[i]) matches Some(j) ==> j
                < after_len)
        &&& forall|j: int|
            0 <= j < self.after@.len() ==> ((#[trigger] self.after@[j]) matches Some(i) ==> i
                < before_len)
    }

    fn insert(&mut self, before: NodeId, after: NodeId)
        requires
            old(self).fits(old(self).before@.len() as int, old(self).after@.len() as int),
            before < old(self).before@.len(),
            after < old(self).after@.len(),
        ensures
            final(self).fits(old(self).before@.len() as int, old(self).after@.len() as int),
            final(self).before@ == old(self).before@.update(before as int, Some(after)),
            final(self).after@ == old(self).after@.update(after as int, Some(before)),
    {
        self.before.set(before, Some(after));
        self.after.set(after, Some(before));
    }
}

/// Ends of the matched units of an edit list, in order.
pub open spec fn unit_ends(units: Seq<UnitEdit>) -> Seq<(usize, usize)>
    decreases units.len(),
{
    if units.len() == 0 {
        Seq::empty()
    } else {
        match units.last() {
            UnitEdit::Matched(matched) => unit_ends(units.drop_last()).push(
                (matched.before, matched.after),
            ),
            _ => unit_ends(units.drop_last()),
        }
    }
}

/// Ends of everything that is paired as an owner: units, then containers, then exact subtrees.
pub open spec fn owner_ends(tree: TreeDiff) -> Seq<(usize, usize)> {
    unit_ends(tree.units@) + Seq::new(
        tree.scopes@.len(),
        |k: int| (tree.scopes@[k].before, tree.scopes@[k].after),
    ) + Seq::new(
        tree.composites@.len(),
        |k: int| (tree.composites@[k].before, tree.composites@[k].after),
    )
}

/// The after partner of each before node; the last pair of a node counts.
pub open spec fn before_owners(ends: Seq<(usize, usize)>, len: nat) -> Seq<Option<usize>>
    decreases ends.len(),
{
    if ends.len() == 0 {
        Seq::new(len, |i: int| None)
    } else {
        before_owners(ends.drop_last(), len).update(ends.last().0 as int, Some(ends.last().1))
    }
}

/// The before partner of each after node; the last pair of a node counts.
pub open spec fn after_owners(ends: Seq<(usize, usize)>, len: nat) -> Seq<Option<usize>>
    decreases ends.len(),
{
    if ends.len() == 0 {
        Seq::new(len, |i: int| None)
    } else {
        after_owners(ends.drop_last(), len).update(ends.last().1 as int, Some(ends.last().0))
    }
}

/// Owners paired as units, containers, or exact subtrees.
fn paired_composite_owners(tree: &TreeDiff, before_len: usize, after_len: usize) -> (pairs: OwnerPairs)
    requires
        tree.fits(before_len as int, after_len as int),
    ensures
        pairs.fits(before_len as int, after_len as int),
        pairs.before@ == before_owners(owner_ends(*tree), before_len as nat),
        pairs.after@ == after_owners(owner_ends(*tree), after_len as nat),
{
    let mut pairs = OwnerPairs { before: nothing(before_len), after: nothing(after_len) };
    let ghost mut ends: Seq<(usize, usize)> = Seq::empty();
    proof {
        assert(tree.units@.take(0) =~= Seq::empty());
        assert(pairs.before@ =~= before_owners(ends, before_len as nat));
        assert(pairs.after@ =~= after_owners(ends, after_len as nat));
    }
    let mut unit: usize = 0;
    while unit < tree.units.len()
        invariant
            tree.fits(before_len as int, after_len as int),
            pairs.fits(before_len as int, after_len as int),
            unit <= tree.units@.len(),
            ends == unit_ends(tree.units@.take(unit as int)),
            pairs.before@ == before_owners(ends, before_len as nat),
            pairs.after@ == after_owners(ends, after_len as nat),
        decreases tree.units@.len() - unit,
    {
        proof {
            assert(edit_fits(
                tree.units@[unit as int],
                before_len as int,
                after_len as int,
                tree.leaves.links@.len() as int,
                tree.composites@.len() as int,
            ));
            let next = tree.units@.take(unit as int + 1);
            assert(next.drop_last() =~= tree.units@.take(unit as int));
            assert(next.last() == tree.units@[unit as int]);
        }
        if let UnitEdit::Matched(matched) = tree.units[unit] {
            pairs.insert(matched.before, matched.after);
            proof {
                let earlier = ends;
                ends = ends.push((matched.before, matched.after));
                assert(ends.drop_last() =~= earlier);
            }
        }
        unit += 1;
    }
    let ghost matched = ends;
    proof {
        assert(tree.units@.take(unit as int) =~= tree.units@);
    }
    let ghost scope_end = |k: int| (tree.scopes@[k].before, tree.scopes@[k].after);
    let mut scope: usize = 0;
    while scope < tree.scopes.len()
        invariant
            tree.fits(before_len as int, after_len as int),
            pairs.fits(before_len as int, after_len as int),
            scope <= tree.scopes@.len(),
            scope_end == (|k: int| (tree.scopes@[k].before, tree.scopes@[k].after)),
            ends == matched + Seq::new(scope as nat, scope_end),
            pairs.before@ == before_owners(ends, before_len as nat),
            pairs.after@ == after_owners(ends, after_len as nat),
        decreases tree.scopes@.len() - scope,
    {
        let link = tree.scopes[scope];
        assert(tree.scopes@[scope as int] == link);
        pairs.insert(link.before, link.after);
        proof {
            let earlier = ends;
            ends = ends.push((link.before, link.after));
            assert(ends.drop_last() =~= earlier);
            assert(ends =~= matched + Seq::new((scope + 1) as nat, scope_end));
        }
        scope += 1;
    }
    let ghost contained = ends;
    let ghost composite_end = |k: int| (tree.composites@[k].before, tree.composites@[k].after);
    let mut composite: usize = 0;
    while composite < tree.composites.len()
        invariant
            tree.fits(before_len as int, after_len as int),
            pairs.fits(before_len as int, after_len as int),
            composite <= tree.composites@.len(),
            composite_end == (|k: int| (tree.composites@[k].before, tree.composites@[k].after)),
            ends == contained + Seq::new(composite as nat, composite_end),
            pairs.before@ == before_owners(ends, before_len as nat),
            pairs.after@ == after_owners(ends, after_len as nat),
        decreases tree.composites@.len() - composite,
    {
        let link = tree.composites[composite];
        assert(tree.composites@[composite as int] == link);
        pairs.insert(link.before, link.after);
        proof {
            let earlier = ends;
            ends = ends.push((link.before, link.after));
            assert(ends.drop_last() =~= earlier);
            assert(ends =~= contained + Seq::new((composite + 1) as nat, composite_end));
        }
        composite += 1;
    }
    proof {
        assert(ends =~= owner_ends(*tree));
    }
    pairs
}

/// The closest paired ancestor of a node, reached without passing an owner, a review boundary,
/// a decoration, or a branch that holds one.
pub open spec fn open_owner(
    tree: SyntaxTree,
    paired: Seq<Option<usize>>,
    branch: int,
    at: int,
) -> Option<int>
    decreases at,
{
    if paired[at] is Some {
        Some(at)
    } else if tree.nodes@[at].correspondence == CorrespondenceRole::HardOwner
        || tree.nodes@[at].review is Some || tree.nodes@[at].decoration_owner is Some
        || crate::correspondence::contexts::beside_fence(tree, paired, at, branch) {
        None
    } else {
        match tree.nodes@[at].parent {
            Some(parent) => if parent < at {
                open_owner(tree, paired, at, parent as int)
            } else {
                None
            },
            None => None,
        }
    }
}

/// `outer` is the closest paired ancestor of `inner` with an open way to it.
pub open spec fn opens_to(
    tree: SyntaxTree,
    paired: Seq<Option<usize>>,
    inner: int,
    outer: int,
) -> bool {
    match tree.nodes@[inner].parent {
        Some(parent) => open_owner(tree, paired, inner, parent as int) == Some(outer),
        None => false,
    }
}

/// Check that `outer` is the nearest paired ancestor of `inner`, with no competing owner branches.
fn paired_owner_is_nearest_open_ancestor(
    tree: &SyntaxTree,
    inner: NodeId,
    outer: NodeId,
    paired: &Vec<Option<usize>>,
) -> (result: bool)
    requires
        tree.wf(),
        tree.has_node(inner as int),
        paired@.len() == tree.nodes@.len(),
    ensures
        result == opens_to(*tree, paired@, inner as int, outer as int),
{
    assert(parent_holds(tree.nodes@, inner as int));
    let mut branch = inner;
    let mut at = match tree.nodes[inner].parent {
        None => {
            return false;
        },
        Some(parent) => parent,
    };
    let ghost first = at;
    loop
        invariant
            tree.wf(),
            tree.has_node(inner as int),
            tree.has_node(at as int),
            paired@.len() == tree.nodes@.len(),
            tree.nodes@[inner as int].parent == Some(first),
            open_owner(*tree, paired@, inner as int, first as int) == open_owner(
                *tree,
                paired@,
                branch as int,
                at as int,
            ),
        decreases at,
    {
        if paired[at].is_some() {
            return at == outer;
        }
        let node = &tree.nodes[at];
        if node.seals_wrappers() || node.review.is_some() || node.decoration_owner.is_some()
            || sibling_fence(tree, paired, at, branch) {
            return false;
        }
        assert(parent_holds(tree.nodes@, at as int));
        match tree.nodes[at].parent {
            None => {
                return false;
            },
            Some(parent) => {
                branch = at;
                at = parent;
            },
        }
    }
}

/// A composite without a partner.
pub open spec fn is_loose(tree: SyntaxTree, paired: Seq<Option<usize>>, id: int) -> bool {
    tree.nodes@[id].is_composite() && paired[id] is None
}

/// The one composite without a partner that has its content, among the nodes of a range.
pub open spec fn only_loose(
    tree: SyntaxTree,
    prints: Seq<NodeFingerprints>,
    paired: Seq<Option<usize>>,
    start: int,
    end: int,
    id: int,
) -> bool {
    &&& start <= id < end
    &&& is_loose(tree, paired, id)
    &&& forall|other: int|
        start <= other < end && #[trigger] is_loose(tree, paired, other) && prints[other].full
            == prints[id].full ==> other == id
}

/// The only unpaired composite of each content in a unit.
struct Unpaired {
    first: HashMap<usize, usize>,
    repeated: HashMap<usize, bool>,
}

impl Unpaired {
    /// Some other loose composite of the range has the same content.
    spec fn again(
        tree: SyntaxTree,
        prints: Seq<NodeFingerprints>,
        paired: Seq<Option<usize>>,
        start: int,
        at: int,
        id: int,
    ) -> bool {
        exists|other: int|
            start <= other < at && #[trigger] is_loose(tree, paired, other) && other != id
                && prints[other].full == prints[id].full
    }

    /// The first loose composite of each content is kept, and repeated contents are marked.
    spec fn counts(
        self,
        tree: SyntaxTree,
        prints: Seq<NodeFingerprints>,
        paired: Seq<Option<usize>>,
        start: int,
        at: int,
    ) -> bool {
        &&& forall|print: usize| #[trigger]
            self.first@.contains_key(print) ==> start <= self.first@[print] < at && is_loose(
                tree,
                paired,
                self.first@[print] as int,
            ) && prints[self.first@[print] as int].full == print
        &&& forall|id: int|
            start <= id < at && #[trigger] is_loose(tree, paired, id) ==> self.first@.contains_key(
                prints[id].full,
            ) && (self.first@[prints[id].full] == id || self.repeated@.contains_key(prints[id].full))
        &&& forall|print: usize| #[trigger]
            self.repeated@.contains_key(print) ==> self.first@.contains_key(print) && Self::again(
                tree,
                prints,
                paired,
                start,
                at,
                self.first@[print] as int,
            )
    }

    fn new(
        tree: &SyntaxTree,
        facts: &Facts,
        paired: &Vec<Option<usize>>,
        unit: NodeId,
    ) -> (unpaired: Unpaired)
        requires
            tree.wf(),
            facts.fits(*tree),
            paired@.len() == tree.nodes@.len(),
            tree.has_node(unit as int),
        ensures
            unpaired.counts(
                *tree,
                facts.prints@,
                paired@,
                unit + 1,
                tree.nodes@[unit as int].subtree_end as int,
            ),
    {
        let mut unpaired = Unpaired { first: HashMap::new(), repeated: HashMap::new() };
        assert(node_fits(
            tree.nodes@[unit as int],
            unit as int,
            tree.nodes@.len() as int,
            tree.source.data().len() as int,
        ));
        let end = tree.nodes[unit].subtree_end;
        let mut at: usize = unit + 1;
        while at < end
            invariant
                tree.wf(),
                facts.fits(*tree),
                paired@.len() == tree.nodes@.len(),
                unit < at <= end <= tree.nodes@.len(),
                unpaired.counts(*tree, facts.prints@, paired@, unit + 1, at as int),
            decreases end - at,
        {
            let ghost earlier = unpaired;
            if tree.nodes[at].composite() && paired[at].is_none() {
                let print = facts.prints[at].full;
                if unpaired.first.contains_key(&print) {
                    unpaired.repeated.insert(print, true);
                } else {
                    unpaired.first.insert(print, at);
                }
            }
            proof {
                assert forall|print: usize| #[trigger]
                    unpaired.repeated@.contains_key(print) implies unpaired.first@.contains_key(
                    print,
                ) && Self::again(
                    *tree,
                    facts.prints@,
                    paired@,
                    unit + 1,
                    at + 1,
                    unpaired.first@[print] as int,
                ) by {
                    let id = unpaired.first@[print] as int;
                    if earlier.repeated@.contains_key(print) {
                        assert(Self::again(
                            *tree,
                            facts.prints@,
                            paired@,
                            unit + 1,
                            at as int,
                            earlier.first@[print] as int,
                        ));
                        let other = choose|other: int|
                            unit + 1 <= other < at && #[trigger] is_loose(*tree, paired@, other)
                                && other != earlier.first@[print]
                                && facts.prints@[other].full == facts.prints@[earlier.first@[print] as int].full;
                        assert(is_loose(*tree, paired@, other));
                        assert(earlier.first@.contains_key(print));
                    } else {
                        assert(is_loose(*tree, paired@, at as int));
                        assert(earlier.first@.contains_key(print));
                    }
                }
            }
            at += 1;
        }
        unpaired
    }

    fn only(
        &self,
        print: usize,
        Ghost(tree): Ghost<SyntaxTree>,
        Ghost(prints): Ghost<Seq<NodeFingerprints>>,
        Ghost(paired): Ghost<Seq<Option<usize>>>,
        Ghost(start): Ghost<int>,
        Ghost(end): Ghost<int>,
    ) -> (node: Option<usize>)
        requires
            self.counts(tree, prints, paired, start, end),
        ensures
            match node {
                Some(id) => only_loose(tree, prints, paired, start, end, id as int)
                    && prints[id as int].full == print,
                None => forall|id: int| #[trigger]
                    only_loose(tree, prints, paired, start, end, id) ==> prints[id].full != print,
            },
    {
        if self.repeated.contains_key(&print) {
            proof {
                let first = self.first@[print] as int;
                assert(self.first@.contains_key(print));
                assert(Self::again(tree, prints, paired, start, end, first));
                let other = choose|other: int|
                    start <= other < end && #[trigger] is_loose(tree, paired, other) && other
                        != first && prints[other].full == prints[first].full;
                assert forall|id: int| #[trigger]
                    only_loose(tree, prints, paired, start, end, id) implies prints[id].full
                    != print by {
                    assert(is_loose(tree, paired, other));
                    assert(is_loose(tree, paired, first));
                }
            }
            return None;
        }
        match self.first.get(&print) {
            Some(id) => Some(*id),
            None => None,
        }
    }
}

/// An exact subtree went to the owner just inside or just outside its old one.
pub open spec fn moved_between(
    scene: Scene<'_>,
    before_paired: Seq<Option<usize>>,
    after_paired: Seq<Option<usize>>,
    before: int,
    after: int,
) -> bool {
    let left = scene.pair.before.nodes@[before];
    let right = scene.pair.after.nodes@[after];
    &&& left.correspondence != CorrespondenceRole::HardOwner
    &&& right.correspondence != CorrespondenceRole::HardOwner
    &&& scene.before.symbols@[before].slot == scene.after.symbols@[after].slot
    &&& left.parent matches Some(old_owner) && right.parent matches Some(new_owner)
        && before_paired[old_owner as int] matches Some(old_owner_after)
        && after_paired[new_owner as int] matches Some(new_owner_before) && old_owner_after
        != new_owner && new_owner_before != old_owner && ((opens_to(
        scene.pair.before,
        before_paired,
        new_owner_before as int,
        old_owner as int,
    ) && opens_to(scene.pair.after, after_paired, new_owner as int, old_owner_after as int)) || (
    opens_to(scene.pair.before, before_paired, old_owner as int, new_owner_before as int)
        && opens_to(
        scene.pair.after,
        after_paired,
        old_owner_after as int,
        new_owner as int,
    )))
}

/// Two subtrees of a matched unit with the same content, unpaired, with no other of that content
/// in the unit, one of which lies in the owner just inside or outside the other's.
pub open spec fn moved_in_unit(
    scene: Scene<'_>,
    before_paired: Seq<Option<usize>>,
    after_paired: Seq<Option<usize>>,
    edit: UnitEdit,
    node: RelocatedNode,
) -> bool {
    &&& edit matches UnitEdit::Matched(unit) && only_loose(
        scene.pair.before,
        scene.before.prints@,
        before_paired,
        unit.before + 1,
        scene.pair.before.nodes@[unit.before as int].subtree_end as int,
        node.before as int,
    ) && only_loose(
        scene.pair.after,
        scene.after.prints@,
        after_paired,
        unit.after + 1,
        scene.pair.after.nodes@[unit.after as int].subtree_end as int,
        node.after as int,
    )
    &&& scene.before.prints@[node.before as int].full
        == scene.after.prints@[node.after as int].full
    &&& moved_between(scene, before_paired, after_paired, node.before as int, node.after as int)
}

/// A subtree that moved between owners inside the first `units` edits.
pub open spec fn is_moved(
    scene: Scene<'_>,
    tree: TreeDiff,
    units: int,
    node: RelocatedNode,
) -> bool {
    let before_paired = before_owners(owner_ends(tree), scene.before_len() as nat);
    let after_paired = after_owners(owner_ends(tree), scene.after_len() as nat);
    exists|k: int|
        0 <= k < units && #[trigger] moved_in_unit(
            scene,
            before_paired,
            after_paired,
            tree.units@[k],
            node,
        )
}

/// Whether an exact subtree went to the owner just inside or just outside its old one.
fn moved_between_owners(scene: &Scene<'_>, pairs: &OwnerPairs, before: NodeId, after: NodeId) -> (moved:
    bool)
    requires
        scene.wf(),
        pairs.fits(scene.before_len(), scene.after_len()),
        before < scene.before_len(),
        after < scene.after_len(),
    ensures
        moved == moved_between(*scene, pairs.before@, pairs.after@, before as int, after as int),
{
    let before_tree = &scene.pair.before;
    let after_tree = &scene.pair.after;
    if before_tree.nodes[before].seals_wrappers() || after_tree.nodes[after].seals_wrappers()
        || scene.before.symbols[before].slot != scene.after.symbols[after].slot {
        return false;
    }
    proof {
        assert(parent_holds(before_tree.nodes@, before as int));
        assert(parent_holds(after_tree.nodes@, after as int));
    }
    let (before_parent, after_parent) = match (
        before_tree.nodes[before].parent,
        after_tree.nodes[after].parent,
    ) {
        (Some(left), Some(right)) => (left, right),
        _ => {
            return false;
        },
    };
    let (before_parent_after, after_parent_before) = match (
        pairs.before[before_parent],
        pairs.after[after_parent],
    ) {
        (Some(left), Some(right)) => (left, right),
        _ => {
            return false;
        },
    };
    if before_parent_after == after_parent || after_parent_before == before_parent {
        return false;
    }
    let inward = paired_owner_is_nearest_open_ancestor(
        before_tree,
        after_parent_before,
        before_parent,
        &pairs.before,
    ) && paired_owner_is_nearest_open_ancestor(
        after_tree,
        after_parent,
        before_parent_after,
        &pairs.after,
    );
    let outward = paired_owner_is_nearest_open_ancestor(
        before_tree,
        before_parent,
        after_parent_before,
        &pairs.before,
    ) && paired_owner_is_nearest_open_ancestor(
        after_tree,
        before_parent_after,
        after_parent,
        &pairs.after,
    );
    inward || outward
}

/// Relocated subtrees share their content, and no two of them overlap in either revision.
pub open spec fn relocations_ok(scene: Scene<'_>, nodes: Seq<RelocatedNode>) -> bool {
    &&& forall|k: int|
        0 <= k < nodes.len() ==> (#[trigger] nodes[k]).before < scene.before_len()
            && nodes[k].after < scene.after_len()
            && scene.before.prints@[nodes[k].before as int].full
            == scene.after.prints@[nodes[k].after as int].full
    &&& forall|k: int, l: int|
        0 <= k < nodes.len() && 0 <= l < nodes.len() && k != l ==> !relocations_overlap(
            scene,
            #[trigger] nodes[k],
            #[trigger] nodes[l],
        )
}

/// One subtree contains the other in either revision.
pub open spec fn relocations_overlap(
    scene: Scene<'_>,
    left: RelocatedNode,
    right: RelocatedNode,
) -> bool {
    ||| scene.pair.before.in_subtree(left.before as int, right.before as int)
    ||| scene.pair.before.in_subtree(right.before as int, left.before as int)
    ||| scene.pair.after.in_subtree(left.after as int, right.after as int)
    ||| scene.pair.after.in_subtree(right.after as int, left.after as int)
}

/// Every listed node lies in its tree and shares its content with its partner.
pub open spec fn nodes_alike(scene: Scene<'_>, nodes: Seq<RelocatedNode>) -> bool {
    forall|k: int|
        0 <= k < nodes.len() ==> (#[trigger] nodes[k]).before < scene.before_len()
            && nodes[k].after < scene.after_len()
            && scene.before.prints@[nodes[k].before as int].full
            == scene.after.prints@[nodes[k].after as int].full
}

/// Relocation candidates of one matched unit.
fn unit_candidates(scene: &Scene<'_>, pairs: &OwnerPairs, unit: &MatchedUnit) -> (candidates: Vec<
    RelocatedNode,
>)
    requires
        scene.wf(),
        pairs.fits(scene.before_len(), scene.after_len()),
        unit.before < scene.before_len(),
        unit.after < scene.after_len(),
    ensures
        nodes_alike(*scene, candidates@),
        forall|k: int|
            0 <= k < candidates@.len() ==> moved_in_unit(
                *scene,
                pairs.before@,
                pairs.after@,
                UnitEdit::Matched(*unit),
                #[trigger] candidates@[k],
            ),
        forall|node: RelocatedNode| #[trigger]
            moved_in_unit(
                *scene,
                pairs.before@,
                pairs.after@,
                UnitEdit::Matched(*unit),
                node,
            ) ==> candidates@.contains(node),
{
    let mut candidates: Vec<RelocatedNode> = Vec::new();
    let left = Unpaired::new(&scene.pair.before, scene.before, &pairs.before, unit.before);
    let right = Unpaired::new(&scene.pair.after, scene.after, &pairs.after, unit.after);
    proof {
        assert(node_fits(
            scene.pair.before.nodes@[unit.before as int],
            unit.before as int,
            scene.before_len(),
            scene.pair.before.source.data().len() as int,
        ));
        assert(node_fits(
            scene.pair.after.nodes@[unit.after as int],
            unit.after as int,
            scene.after_len(),
            scene.pair.after.source.data().len() as int,
        ));
    }
    let end = scene.pair.before.nodes[unit.before].subtree_end;
    let after_end = scene.pair.after.nodes[unit.after].subtree_end;
    let mut at: usize = unit.before + 1;
    while at < end
        invariant
            scene.wf(),
            pairs.fits(scene.before_len(), scene.after_len()),
            unit.before < scene.before_len(),
            unit.after < scene.after_len(),
            unit.before < at <= end <= scene.before_len(),
            after_end <= scene.after_len(),
            end == scene.pair.before.nodes@[unit.before as int].subtree_end,
            after_end == scene.pair.after.nodes@[unit.after as int].subtree_end,
            left.counts(
                scene.pair.before,
                scene.before.prints@,
                pairs.before@,
                unit.before + 1,
                end as int,
            ),
            right.counts(
                scene.pair.after,
                scene.after.prints@,
                pairs.after@,
                unit.after + 1,
                after_end as int,
            ),
            nodes_alike(*scene, candidates@),
            forall|k: int|
                0 <= k < candidates@.len() ==> moved_in_unit(
                    *scene,
                    pairs.before@,
                    pairs.after@,
                    UnitEdit::Matched(*unit),
                    #[trigger] candidates@[k],
                ),
            forall|node: RelocatedNode| #[trigger]
                moved_in_unit(
                    *scene,
                    pairs.before@,
                    pairs.after@,
                    UnitEdit::Matched(*unit),
                    node,
                ) && node.before < at ==> candidates@.contains(node),
        decreases end - at,
    {
        let print = scene.before.prints[at].full;
        let alone = match left.only(
            print,
            Ghost(scene.pair.before),
            Ghost(scene.before.prints@),
            Ghost(pairs.before@),
            Ghost(unit.before + 1),
            Ghost(end as int),
        ) {
            Some(id) => id == at,
            None => false,
        };
        let ghost earlier = candidates@;
        if alone {
            if let Some(after) = right.only(
                print,
                Ghost(scene.pair.after),
                Ghost(scene.after.prints@),
                Ghost(pairs.after@),
                Ghost(unit.after + 1),
                Ghost(after_end as int),
            ) {
                if moved_between_owners(scene, pairs, at, after) {
                    candidates.push(RelocatedNode { before: at, after });
                    assert(candidates@[earlier.len() as int] == RelocatedNode { before: at, after });
                }
            }
        }
        proof {
            assert forall|node: RelocatedNode| #[trigger]
                moved_in_unit(
                    *scene,
                    pairs.before@,
                    pairs.after@,
                    UnitEdit::Matched(*unit),
                    node,
                ) && node.before < at + 1 implies candidates@.contains(node) by {
                if node.before < at {
                    assert(earlier.contains(node));
                    let k = choose|k: int| 0 <= k < earlier.len() && earlier[k] == node;
                    assert(candidates@[k] == node);
                } else {
                    assert(only_loose(
                        scene.pair.before,
                        scene.before.prints@,
                        pairs.before@,
                        unit.before + 1,
                        end as int,
                        at as int,
                    ));
                    assert(is_loose(scene.pair.before, pairs.before@, at as int));
                    assert(only_loose(
                        scene.pair.after,
                        scene.after.prints@,
                        pairs.after@,
                        unit.after + 1,
                        after_end as int,
                        node.after as int,
                    ));
                    assert(is_loose(scene.pair.after, pairs.after@, node.after as int));
                    assert(candidates@.len() == earlier.len() + 1);
                    assert(candidates@[earlier.len() as int] == node);
                }
            }
        }
        at += 1;
    }
    candidates
}

/// The listed nodes are those that moved inside the first `units` edits.
pub open spec fn lists_moved(
    scene: Scene<'_>,
    tree: TreeDiff,
    units: int,
    nodes: Seq<RelocatedNode>,
) -> bool {
    &&& forall|k: int| 0 <= k < nodes.len() ==> is_moved(scene, tree, units, #[trigger] nodes[k])
    &&& forall|node: RelocatedNode| #[trigger]
        is_moved(scene, tree, units, node) ==> nodes.contains(node)
}

/// Relocation candidates of all matched units.
fn relocation_candidates(scene: &Scene<'_>, tree: &TreeDiff) -> (candidates: Vec<RelocatedNode>)
    requires
        scene.wf(),
        tree.fits(scene.before_len(), scene.after_len()),
    ensures
        nodes_alike(*scene, candidates@),
        lists_moved(*scene, *tree, tree.units@.len() as int, candidates@),
{
    let pairs = paired_composite_owners(
        tree,
        scene.pair.before.nodes.len(),
        scene.pair.after.nodes.len(),
    );
    let mut candidates: Vec<RelocatedNode> = Vec::new();
    let mut unit: usize = 0;
    while unit < tree.units.len()
        invariant
            scene.wf(),
            tree.fits(scene.before_len(), scene.after_len()),
            pairs.fits(scene.before_len(), scene.after_len()),
            pairs.before@ == before_owners(owner_ends(*tree), scene.before_len() as nat),
            pairs.after@ == after_owners(owner_ends(*tree), scene.after_len() as nat),
            unit <= tree.units@.len(),
            nodes_alike(*scene, candidates@),
            lists_moved(*scene, *tree, unit as int, candidates@),
        decreases tree.units@.len() - unit,
    {
        assert(edit_fits(
            tree.units@[unit as int],
            scene.before_len(),
            scene.after_len(),
            tree.leaves.links@.len() as int,
            tree.composites@.len() as int,
        ));
        let ghost earlier = candidates@;
        let ghost edit = tree.units@[unit as int];
        let ghost mut added: Seq<RelocatedNode> = Seq::empty();
        if let UnitEdit::Matched(matched) = &tree.units[unit] {
            let mut found = unit_candidates(scene, &pairs, matched);
            proof {
                added = found@;
            }
            candidates.append(&mut found);
        }
        proof {
            assert(candidates@ =~= earlier + added);
            lemma_moved_grows(*scene, *tree, unit as int, earlier, added);
        }
        unit += 1;
    }
    candidates
}

/// Listing the moves of one more unit.
proof fn lemma_moved_grows(
    scene: Scene<'_>,
    tree: TreeDiff,
    unit: int,
    earlier: Seq<RelocatedNode>,
    added: Seq<RelocatedNode>,
)
    requires
        0 <= unit < tree.units@.len(),
        lists_moved(scene, tree, unit, earlier),
        forall|k: int|
            0 <= k < added.len() ==> moved_in_unit(
                scene,
                before_owners(owner_ends(tree), scene.before_len() as nat),
                after_owners(owner_ends(tree), scene.after_len() as nat),
                tree.units@[unit],
                #[trigger] added[k],
            ),
        forall|node: RelocatedNode| #[trigger]
            moved_in_unit(
                scene,
                before_owners(owner_ends(tree), scene.before_len() as nat),
                after_owners(owner_ends(tree), scene.after_len() as nat),
                tree.units@[unit],
                node,
            ) ==> added.contains(node),
    ensures
        lists_moved(scene, tree, unit + 1, earlier + added),
{
    let before_paired = before_owners(owner_ends(tree), scene.before_len() as nat);
    let after_paired = after_owners(owner_ends(tree), scene.after_len() as nat);
    let nodes = earlier + added;
    assert forall|k: int| 0 <= k < nodes.len() implies is_moved(
        scene,
        tree,
        unit + 1,
        #[trigger] nodes[k],
    ) by {
        if k < earlier.len() {
            assert(is_moved(scene, tree, unit, earlier[k]));
            let at = choose|at: int|
                0 <= at < unit && #[trigger] moved_in_unit(
                    scene,
                    before_paired,
                    after_paired,
                    tree.units@[at],
                    earlier[k],
                );
            assert(moved_in_unit(scene, before_paired, after_paired, tree.units@[at], nodes[k]));
        } else {
            assert(nodes[k] == added[k - earlier.len()]);
            assert(moved_in_unit(scene, before_paired, after_paired, tree.units@[unit], nodes[k]));
        }
    }
    assert forall|node: RelocatedNode| #[trigger]
        is_moved(scene, tree, unit + 1, node) implies nodes.contains(node) by {
        let at = choose|at: int|
            0 <= at < unit + 1 && #[trigger] moved_in_unit(
                scene,
                before_paired,
                after_paired,
                tree.units@[at],
                node,
            );
        if at < unit {
            assert(is_moved(scene, tree, unit, node));
            let k = choose|k: int| 0 <= k < earlier.len() && earlier[k] == node;
            assert(nodes[k] == node);
        } else {
            assert(added.contains(node));
            let k = choose|k: int| 0 <= k < added.len() && added[k] == node;
            assert(nodes[earlier.len() + k] == node);
        }
    }
}

/// Number of before nodes in a relocated subtree.
pub open spec fn extent(scene: Scene<'_>, node: RelocatedNode) -> int {
    scene.pair.before.nodes@[node.before as int].subtree_end - node.before
}

/// The node is listed, or overlaps a listed subtree of at least its size.
pub open spec fn is_reported(
    scene: Scene<'_>,
    nodes: Seq<RelocatedNode>,
    node: RelocatedNode,
) -> bool {
    exists|k: int|
        0 <= k < nodes.len() && relocations_overlap(scene, #[trigger] nodes[k], node) && extent(
            scene,
            nodes[k],
        ) >= extent(scene, node)
}

/// Every listed subtree moved between owners, and every subtree that did is reported.
pub open spec fn reports_moves(
    scene: Scene<'_>,
    tree: TreeDiff,
    nodes: Seq<RelocatedNode>,
) -> bool {
    &&& forall|k: int|
        0 <= k < nodes.len() ==> is_moved(
            scene,
            tree,
            tree.units@.len() as int,
            #[trigger] nodes[k],
        )
    &&& forall|node: RelocatedNode| #[trigger]
        is_moved(scene, tree, tree.units@.len() as int, node) ==> is_reported(scene, nodes, node)
}

/// Nodes in before order.
pub open spec fn in_before_order(nodes: Seq<RelocatedNode>) -> bool {
    forall|k: int, l: int|
        0 <= k < l < nodes.len() ==> (#[trigger] nodes[k]).before <= (#[trigger] nodes[l]).before
}

/// Find exact subtrees transferred between surviving nested owners.
/// Keeping these moves separate from wrapper changes preserves sibling boundaries.
pub fn cross_owner_relocations(scene: &Scene<'_>, tree: &TreeDiff) -> (relocations: Vec<RelocatedNode>)
    requires
        scene.wf(),
        tree.fits(scene.before_len(), scene.after_len()),
    ensures
        relocations_ok(*scene, relocations@),
        reports_moves(*scene, *tree, relocations@),
        in_before_order(relocations@),
{
    let candidates = relocation_candidates(scene, tree);
    let ordered = larger_first(scene, &candidates);
    let mut relocations: Vec<RelocatedNode> = Vec::new();
    // Outer subtrees come first, so nested candidates cannot report the same move twice.
    let mut index: usize = 0;
    while index < ordered.len()
        invariant
            scene.wf(),
            index <= ordered@.len(),
            nodes_alike(*scene, ordered@),
            falls_in_size(*scene, ordered@),
            relocations_ok(*scene, relocations@),
            in_before_order(relocations@),
            forall|k: int|
                0 <= k < relocations@.len() ==> is_earlier(
                    ordered@,
                    index as int,
                    #[trigger] relocations@[k],
                ),
            forall|m: int|
                0 <= m < index ==> is_reported(*scene, relocations@, #[trigger] ordered@[m]),
        decreases ordered@.len() - index,
    {
        let candidate = ordered[index];
        assert(ordered@[index as int] == candidate);
        let ghost chosen = relocations@;
        if !overlaps_any(scene, &relocations, candidate) {
            insert_relocation(scene, &mut relocations, candidate);
        }
        proof {
            lemma_candidate_reported(*scene, ordered@, index as int, chosen, relocations@);
        }
        index += 1;
    }
    proof {
        lemma_moves_reported(*scene, *tree, candidates@, ordered@, relocations@);
    }
    relocations
}

/// Going through all candidates reports every move.
proof fn lemma_moves_reported(
    scene: Scene<'_>,
    tree: TreeDiff,
    candidates: Seq<RelocatedNode>,
    ordered: Seq<RelocatedNode>,
    chosen: Seq<RelocatedNode>,
)
    requires
        lists_moved(scene, tree, tree.units@.len() as int, candidates),
        forall|node: RelocatedNode| #[trigger]
            candidates.contains(node) <==> ordered.contains(node),
        forall|k: int|
            0 <= k < chosen.len() ==> is_earlier(
                ordered,
                ordered.len() as int,
                #[trigger] chosen[k],
            ),
        forall|m: int| 0 <= m < ordered.len() ==> is_reported(scene, chosen, #[trigger] ordered[m]),
    ensures
        reports_moves(scene, tree, chosen),
{
    let units = tree.units@.len() as int;
    assert forall|k: int| 0 <= k < chosen.len() implies is_moved(
        scene,
        tree,
        units,
        #[trigger] chosen[k],
    ) by {
        assert(is_earlier(ordered, ordered.len() as int, chosen[k]));
        let m = choose|m: int| 0 <= m < ordered.len() && #[trigger] ordered[m] == chosen[k];
        assert(ordered.contains(chosen[k]));
        assert(candidates.contains(chosen[k]));
        let c = choose|c: int| 0 <= c < candidates.len() && candidates[c] == chosen[k];
        assert(is_moved(scene, tree, units, candidates[c]));
    }
    assert forall|node: RelocatedNode| #[trigger] is_moved(scene, tree, units, node) implies is_reported(
        scene,
        chosen,
        node,
    ) by {
        assert(candidates.contains(node));
        assert(ordered.contains(node));
        let m = choose|m: int| 0 <= m < ordered.len() && ordered[m] == node;
        assert(is_reported(scene, chosen, ordered[m]));
    }
}

/// The node stands among the first entries of a list.
spec fn is_earlier(nodes: Seq<RelocatedNode>, end: int, node: RelocatedNode) -> bool {
    exists|m: int| 0 <= m < end && #[trigger] nodes[m] == node
}

/// Subtrees never grow along the list.
spec fn falls_in_size(scene: Scene<'_>, nodes: Seq<RelocatedNode>) -> bool {
    forall|k: int, l: int|
        0 <= k < l < nodes.len() ==> extent(scene, #[trigger] nodes[k]) >= extent(
            scene,
            #[trigger] nodes[l],
        )
}

/// Going through one more candidate keeps what was chosen, and reports the candidate.
proof fn lemma_candidate_reported(
    scene: Scene<'_>,
    ordered: Seq<RelocatedNode>,
    index: int,
    earlier: Seq<RelocatedNode>,
    chosen: Seq<RelocatedNode>,
)
    requires
        scene.wf(),
        0 <= index < ordered.len(),
        nodes_alike(scene, ordered),
        falls_in_size(scene, ordered),
        forall|k: int|
            0 <= k < earlier.len() ==> is_earlier(ordered, index, #[trigger] earlier[k]),
        forall|m: int| 0 <= m < index ==> is_reported(scene, earlier, #[trigger] ordered[m]),
        chosen == earlier && (exists|k: int|
            0 <= k < earlier.len() && relocations_overlap(
                scene,
                #[trigger] earlier[k],
                ordered[index],
            )) || inserted(earlier, ordered[index], chosen),
    ensures
        forall|k: int|
            0 <= k < chosen.len() ==> is_earlier(ordered, index + 1, #[trigger] chosen[k]),
        forall|m: int| 0 <= m < index + 1 ==> is_reported(scene, chosen, #[trigger] ordered[m]),
{
    let candidate = ordered[index];
    if inserted(earlier, candidate, chosen) {
        lemma_inserted_contains(earlier, candidate, chosen);
    }
    assert forall|k: int| 0 <= k < chosen.len() implies is_earlier(
        ordered,
        index + 1,
        #[trigger] chosen[k],
    ) by {
        assert(chosen.contains(chosen[k]));
        if earlier.contains(chosen[k]) {
            let l = choose|l: int| 0 <= l < earlier.len() && earlier[l] == chosen[k];
            assert(is_earlier(ordered, index, earlier[l]));
            let m = choose|m: int| 0 <= m < index && #[trigger] ordered[m] == earlier[l];
            assert(ordered[m] == chosen[k]);
        } else {
            assert(ordered[index] == chosen[k]);
        }
    }
    assert forall|m: int| 0 <= m < index + 1 implies is_reported(
        scene,
        chosen,
        #[trigger] ordered[m],
    ) by {
        if m < index {
            assert(is_reported(scene, earlier, ordered[m]));
            let k = choose|k: int|
                0 <= k < earlier.len() && relocations_overlap(
                    scene,
                    #[trigger] earlier[k],
                    ordered[m],
                ) && extent(scene, earlier[k]) >= extent(scene, ordered[m]);
            assert(earlier.contains(earlier[k]));
            assert(chosen.contains(earlier[k]));
            let l = choose|l: int| 0 <= l < chosen.len() && chosen[l] == earlier[k];
            assert(relocations_overlap(scene, chosen[l], ordered[m]));
        } else if inserted(earlier, candidate, chosen) {
            assert(chosen.contains(candidate));
            let l = choose|l: int| 0 <= l < chosen.len() && chosen[l] == candidate;
            assert(node_fits(
                scene.pair.before.nodes@[candidate.before as int],
                candidate.before as int,
                scene.before_len(),
                scene.pair.before.source.data().len() as int,
            ));
            assert(relocations_overlap(scene, chosen[l], candidate));
        } else {
            let k = choose|k: int|
                0 <= k < earlier.len() && relocations_overlap(
                    scene,
                    #[trigger] earlier[k],
                    candidate,
                );
            assert(is_earlier(ordered, index, earlier[k]));
            let l = choose|l: int| 0 <= l < index && #[trigger] ordered[l] == earlier[k];
            assert(extent(scene, ordered[l]) >= extent(scene, ordered[m]));
            assert(relocations_overlap(scene, chosen[k], ordered[m]));
        }
    }
}

/// One node more, somewhere in the list.
spec fn inserted(
    earlier: Seq<RelocatedNode>,
    node: RelocatedNode,
    nodes: Seq<RelocatedNode>,
) -> bool {
    exists|position: int|
        0 <= position <= earlier.len() && nodes == #[trigger] earlier.insert(position, node)
}

proof fn lemma_inserted_contains(
    earlier: Seq<RelocatedNode>,
    node: RelocatedNode,
    nodes: Seq<RelocatedNode>,
)
    requires
        inserted(earlier, node, nodes),
    ensures
        forall|other: RelocatedNode| #[trigger]
            nodes.contains(other) <==> earlier.contains(other) || other == node,
        forall|other: RelocatedNode| #[trigger]
            earlier.contains(other) ==> nodes.contains(other),
{
    let position = choose|position: int|
        0 <= position <= earlier.len() && nodes == #[trigger] earlier.insert(position, node);
    assert(nodes[position] == node);
    assert forall|other: RelocatedNode| #[trigger] earlier.contains(other) implies nodes.contains(
        other,
    ) by {
        let k = choose|k: int| 0 <= k < earlier.len() && earlier[k] == other;
        if k < position {
            assert(nodes[k] == other);
        } else {
            assert(nodes[k + 1] == other);
        }
    }
    assert forall|other: RelocatedNode| #[trigger]
        nodes.contains(other) implies earlier.contains(other) || other == node by {
        let k = choose|k: int| 0 <= k < nodes.len() && nodes[k] == other;
        if k < position {
            assert(earlier[k] == other);
        } else if k > position {
            assert(earlier[k - 1] == other);
        }
    }
}

/// Candidates with larger subtrees first, then in before order.
fn larger_first(scene: &Scene<'_>, candidates: &Vec<RelocatedNode>) -> (ordered: Vec<RelocatedNode>)
    requires
        scene.wf(),
        nodes_alike(*scene, candidates@),
    ensures
        nodes_alike(*scene, ordered@),
        falls_in_size(*scene, ordered@),
        forall|node: RelocatedNode| #[trigger]
            candidates@.contains(node) <==> ordered@.contains(node),
{
    let tree = &scene.pair.before;
    let mut ordered: Vec<RelocatedNode> = Vec::new();
    let mut index: usize = 0;
    while index < candidates.len()
        invariant
            scene.wf(),
            tree == &scene.pair.before,
            index <= candidates@.len(),
            nodes_alike(*scene, candidates@),
            nodes_alike(*scene, ordered@),
            falls_in_size(*scene, ordered@),
            forall|node: RelocatedNode| #[trigger]
                ordered@.contains(node) <==> is_earlier(candidates@, index as int, node),
        decreases candidates@.len() - index,
    {
        let candidate = candidates[index];
        assert(candidates@[index as int] == candidate);
        let size = subtree_size(tree, candidate.before);
        let mut position: usize = ordered.len();
        while position > 0 && subtree_size(tree, ordered[position - 1].before) < size
            invariant
                scene.wf(),
                tree == &scene.pair.before,
                position <= ordered@.len(),
                nodes_alike(*scene, ordered@),
                size == extent(*scene, candidate),
                forall|l: int|
                    position <= l < ordered@.len() ==> extent(*scene, #[trigger] ordered@[l])
                        < size,
            decreases position,
        {
            assert(ordered@[position - 1].before < scene.before_len());
            position -= 1;
        }
        let ghost earlier = ordered@;
        ordered.insert(position, candidate);
        proof {
            assert(ordered@ =~= earlier.insert(position as int, candidate));
            lemma_inserted_contains(earlier, candidate, ordered@);
            assert forall|k: int| 0 <= k < ordered@.len() implies ordered@[k] == (if k < position {
                earlier[k]
            } else if k == position {
                candidate
            } else {
                earlier[k - 1]
            }) by {}
            assert(falls_in_size(*scene, ordered@));
            assert forall|node: RelocatedNode| #[trigger]
                ordered@.contains(node) <==> is_earlier(candidates@, index + 1, node) by {
                if is_earlier(candidates@, index as int, node) {
                    let m = choose|m: int| 0 <= m < index && #[trigger] candidates@[m] == node;
                    assert(candidates@[m] == node);
                }
                if is_earlier(candidates@, index + 1, node) {
                    let m = choose|m: int| 0 <= m < index + 1 && #[trigger] candidates@[m] == node;
                    if m < index {
                        assert(candidates@[m] == node);
                        assert(is_earlier(candidates@, index as int, node));
                        assert(earlier.contains(node));
                    }
                }
                assert(earlier.contains(node) <==> is_earlier(candidates@, index as int, node));
            }
        }
        index += 1;
    }
    ordered
}

/// Number of nodes in a subtree.
pub fn subtree_size(tree: &SyntaxTree, id: NodeId) -> (size: usize)
    requires
        tree.wf(),
        tree.has_node(id as int),
    ensures
        size == tree.nodes@[id as int].subtree_end - id,
{
    assert(node_fits(
        tree.nodes@[id as int],
        id as int,
        tree.nodes@.len() as int,
        tree.source.data().len() as int,
    ));
    tree.nodes[id].subtree_end - id
}

fn overlaps_any(scene: &Scene<'_>, chosen: &Vec<RelocatedNode>, candidate: RelocatedNode) -> (found:
    bool)
    requires
        scene.wf(),
        relocations_ok(*scene, chosen@),
        candidate.before < scene.before_len(),
        candidate.after < scene.after_len(),
    ensures
        found == exists|k: int|
            0 <= k < chosen@.len() && relocations_overlap(
                *scene,
                #[trigger] chosen@[k],
                candidate,
            ),
{
    let mut index: usize = 0;
    while index < chosen.len()
        invariant
            scene.wf(),
            relocations_ok(*scene, chosen@),
            candidate.before < scene.before_len(),
            candidate.after < scene.after_len(),
            index <= chosen@.len(),
            forall|k: int|
                0 <= k < index ==> !relocations_overlap(*scene, #[trigger] chosen@[k], candidate),
        decreases chosen@.len() - index,
    {
        let other = chosen[index];
        assert(chosen@[index as int] == other);
        if scene.pair.before.contains(other.before, candidate.before)
            || scene.pair.before.contains(candidate.before, other.before)
            || scene.pair.after.contains(other.after, candidate.after)
            || scene.pair.after.contains(candidate.after, other.after) {
            return true;
        }
        index += 1;
    }
    false
}

/// Add a relocation that overlaps none of the chosen ones, in before order.
fn insert_relocation(scene: &Scene<'_>, chosen: &mut Vec<RelocatedNode>, candidate: RelocatedNode)
    requires
        scene.wf(),
        relocations_ok(*scene, old(chosen)@),
        in_before_order(old(chosen)@),
        candidate.before < scene.before_len(),
        candidate.after < scene.after_len(),
        scene.before.prints@[candidate.before as int].full
            == scene.after.prints@[candidate.after as int].full,
        forall|k: int|
            0 <= k < old(chosen)@.len() ==> !relocations_overlap(
                *scene,
                #[trigger] old(chosen)@[k],
                candidate,
            ),
    ensures
        relocations_ok(*scene, final(chosen)@),
        in_before_order(final(chosen)@),
        inserted(old(chosen)@, candidate, final(chosen)@),
{
    let mut position: usize = chosen.len();
    while position > 0 && chosen[position - 1].before > candidate.before
        invariant
            position <= chosen@.len(),
            forall|l: int|
                position <= l < chosen@.len() ==> (#[trigger] chosen@[l]).before > candidate.before,
        decreases position,
    {
        position -= 1;
    }
    let ghost earlier = chosen@;
    chosen.insert(position, candidate);
    proof {
        assert(chosen@ =~= earlier.insert(position as int, candidate));
        assert forall|k: int| 0 <= k < chosen@.len() implies chosen@[k] == (if k < position {
            earlier[k]
        } else if k == position {
            candidate
        } else {
            earlier[k - 1]
        }) by {}
        assert(in_before_order(chosen@));
        assert forall|k: int| 0 <= k < chosen@.len() implies (#[trigger] chosen@[k]).before
            < scene.before_len() && chosen@[k].after < scene.after_len()
            && scene.before.prints@[chosen@[k].before as int].full
            == scene.after.prints@[chosen@[k].after as int].full by {
            if k < position {
                assert(chosen@[k] == earlier[k]);
            } else if k > position {
                assert(chosen@[k] == earlier[k - 1]);
            }
        }
        assert forall|k: int, l: int|
            0 <= k < chosen@.len() && 0 <= l < chosen@.len() && k != l implies !relocations_overlap(
            *scene,
            #[trigger] chosen@[k],
            #[trigger] chosen@[l],
        ) by {
            let left = if k < position {
                k
            } else {
                k - 1
            };
            let right = if l < position {
                l
            } else {
                l - 1
            };
            if k != position {
                assert(chosen@[k] == earlier[left]);
            }
            if l != position {
                assert(chosen@[l] == earlier[right]);
            }
            if k != position && l != position {
                assert(!relocations_overlap(*scene, earlier[left], earlier[right]));
            } else if k != position {
                assert(!relocations_overlap(*scene, earlier[left], candidate));
            } else {
                assert(!relocations_overlap(*scene, earlier[right], candidate));
            }
        }
    }
}

} // verus!

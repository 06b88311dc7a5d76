//! Match the children of two paired contexts.

use crate::alignment::{
    has_end, is_anchored_alignment, is_blocked, law_anchored_alignment_is_maximal, monotone,
    one_to_one, ordered_matches, OrderedMatch,
};
use crate::correspondence::contexts::{
    containment_path, reparenting_of, unique_containment_path, unique_containment_reparenting,
    ContextLinks, Scene,
};
use crate::correspondence::facts::Facts;
use crate::correspondence::keys::{
    key_views, keys_agree, keys_blocked, keys_exhausted, ordered_key_matches,
    unordered_key_matches,
};
use crate::correspondence::partners::{
    all_claimed, free_at, indices_below, is_crossed, lemma_blocked_is_crossed, lemma_crossed_grows,
    lemma_end_is_paired, lemma_monotone_one_to_one, mutual, new_pairs_from, spread, Partners,
};
use crate::correspondence::ranks::{is_keyed_pass, lemma_keyed_pass, lists_keyed};
use crate::syntax::{
    children_hold, node_fits, CorrespondenceRole, LeafRole, NodeId, SyntaxNode, SyntaxPair,
    SyntaxTree,
};
use std::collections::HashMap;
use vstd::prelude::*;

verus! {

/// Candidate children of one revision.
#[derive(Clone, Copy)]
pub struct Side<'a> {
    pub tree: &'a SyntaxTree,
    pub facts: &'a Facts,
    /// Partners of all nodes of this revision.
    pub linked: &'a Vec<Option<usize>>,
    /// The candidate children.
    pub nodes: &'a Vec<NodeId>,
}

impl Side<'_> {
    pub open spec fn wf(self) -> bool {
        &&& self.tree.wf()
        &&& self.facts.fits(*self.tree)
        &&& self.linked@.len() == self.tree.nodes@.len()
        &&& indices_below(self.nodes@, self.tree.nodes@.len() as int)
    }

    /// Already paired elsewhere.
    pub open spec fn is_reserved(self, index: int) -> bool {
        self.linked@[self.nodes@[index] as int] is Some
    }

    pub open spec fn node_at(self, index: int) -> SyntaxNode {
        self.tree.nodes@[self.nodes@[index] as int]
    }

    /// Kind and incoming field.
    pub open spec fn shape_at(self, index: int) -> (usize, usize) {
        (
            self.facts.symbols@[self.nodes@[index] as int].kind,
            self.facts.symbols@[self.nodes@[index] as int].slot,
        )
    }

    pub open spec fn full_at(self, index: int) -> usize {
        self.facts.prints@[self.nodes@[index] as int].full
    }

    pub open spec fn is_named_at(self, index: int) -> bool {
        self.facts.symbols@[self.nodes@[index] as int].identity is Some
    }

    /// Name of a child.
    pub open spec fn identity_at(self, index: int) -> Option<usize> {
        self.facts.symbols@[self.nodes@[index] as int].identity
    }

    /// The child decorates another node.
    pub open spec fn is_decorated_at(self, index: int) -> bool {
        self.node_at(index).decoration_owner is Some
    }

    /// Kind and name of a named child.
    pub open spec fn name_at(self, index: int) -> (usize, usize) {
        (
            self.facts.symbols@[self.nodes@[index] as int].kind,
            self.facts.symbols@[self.nodes@[index] as int].identity->0,
        )
    }

    /// Key by which a step compares a child.
    pub open spec fn key_at(self, index: int, by: ContextKey) -> Seq<usize> {
        context_key_of(*self.tree, *self.facts, self.nodes@[index] as int, by)
    }

    /// A node inside the child repeats the content or the name of a child of the other side.
    pub open spec fn echoes(self, other: Side<'_>, index: int) -> bool {
        exists|at: int, k: int|
            self.nodes@[index] < at < self.node_at(index).subtree_end && 0 <= k < other.nodes@.len()
                && #[trigger] self.repeats(other, at, k)
    }

    /// A node repeats the content or the name of a child of the other side.
    pub open spec fn repeats(self, other: Side<'_>, at: int, k: int) -> bool {
        self.facts.prints@[at].full == other.full_at(k) || other.is_named_at(k)
            && self.facts.symbols@[at].kind == other.name_at(k).0 && self.facts.symbols@[at].identity
            == Some(other.name_at(k).1)
    }

    /// A node inside the child has the kind and name of a free named child of the other side.
    pub open spec fn echoes_name(
        self,
        other: Side<'_>,
        partner: Seq<Option<usize>>,
        masks: Seq<bool>,
        index: int,
    ) -> bool {
        exists|k: int|
            0 <= k < other.nodes@.len() && #[trigger] in_step(
                other,
                partner,
                masks,
                Step::AllNamed,
                k,
            ) && names_inside(
                *self.facts,
                self.nodes@[index] as int,
                self.node_at(index).subtree_end as int,
                other.name_at(k),
            )
    }

    /// A free child that decorates nothing and has no echo of the other side inside.
    pub open spec fn is_plain(self, other: Side<'_>, index: int) -> bool {
        &&& 0 <= index < self.nodes@.len()
        &&& !self.is_reserved(index)
        &&& self.node_at(index).decoration_owner is None
        &&& !self.echoes(other, index)
    }

    /// A free decoration of a node of the tree, with no echo of the other side inside.
    pub open spec fn is_decoration(self, other: Side<'_>, index: int) -> bool {
        &&& 0 <= index < self.nodes@.len()
        &&& !self.is_reserved(index)
        &&& self.node_at(index).decoration_owner matches Some(owner)
        &&& owner < self.tree.nodes@.len()
        &&& !self.echoes(other, index)
    }

    /// An owner of its contents.
    pub open spec fn is_owner_at(self, index: int) -> bool {
        self.node_at(index).correspondence != CorrespondenceRole::Transparent
    }

    fn reserved(&self, index: usize) -> (result: bool)
        requires
            self.wf(),
            index < self.nodes@.len(),
        ensures
            result == self.is_reserved(index as int),
    {
        self.linked[self.nodes[index]].is_some()
    }

    fn named(&self, index: usize) -> (result: bool)
        requires
            self.wf(),
            index < self.nodes@.len(),
        ensures
            result == self.is_named_at(index as int),
    {
        self.facts.symbols[self.nodes[index]].identity.is_some()
    }

    fn decorated(&self, index: usize) -> (result: bool)
        requires
            self.wf(),
            index < self.nodes@.len(),
        ensures
            result == (self.node_at(index as int).decoration_owner is Some),
    {
        self.tree.nodes[self.nodes[index]].decoration_owner.is_some()
    }

    fn ordered(&self, index: usize) -> (result: bool)
        requires
            self.wf(),
            index < self.nodes@.len(),
        ensures
            result == (self.node_at(index as int).correspondence
                == CorrespondenceRole::Transparent),
    {
        self.tree.nodes[self.nodes[index]].is_ordered_syntax()
    }
}

/// Why two children may be partners: the same kind in the same field, or the same content.
pub open spec fn children_agree(before: Side<'_>, after: Side<'_>, i: int, j: int) -> bool {
    before.shape_at(i) == after.shape_at(j) || before.full_at(i) == after.full_at(j)
}

/// Decorations pair with decorations, and without renames other children keep their names.
pub open spec fn pairs_kept(
    before: Side<'_>,
    after: Side<'_>,
    partners: Partners,
    renames: bool,
) -> bool {
    forall|i: int|
        0 <= i < before.nodes@.len() ==> ((#[trigger] partners.before@[i]) matches Some(j)
            ==> before.is_decorated_at(i) == after.is_decorated_at(j as int) && (
        before.is_decorated_at(i) || renames || before.identity_at(i) == after.identity_at(
            j as int,
        )))
}

/// Pairs hold only free children that agree.
pub open spec fn child_pairs_ok(before: Side<'_>, after: Side<'_>, partners: Partners) -> bool {
    &&& partners.wf(before.nodes@.len() as int, after.nodes@.len() as int)
    &&& forall|i: int|
        0 <= i < before.nodes@.len() ==> ((#[trigger] partners.before@[i]) matches Some(j)
            ==> !before.is_reserved(i) && !after.is_reserved(j as int) && children_agree(
            before,
            after,
            i,
            j as int,
        ))
}

/// Two plain children with the same kind, field, role and name are never both left over.
pub open spec fn names_exhausted(before: Side<'_>, after: Side<'_>, partners: Partners) -> bool {
    forall|i: int, j: int| #[trigger]
        before.is_plain(after, i) && #[trigger] after.is_plain(before, j) && before.is_named_at(i)
            && after.is_named_at(j) && before.key_at(i, ContextKey::RoleName) == after.key_at(
            j,
            ContextKey::RoleName,
        ) ==> partners.before@[i] is Some || partners.after@[j] is Some
}

/// Two plain nameless owners with the same kind, field and role are never both left over.
pub open spec fn owners_exhausted(before: Side<'_>, after: Side<'_>, partners: Partners) -> bool {
    forall|i: int, j: int| #[trigger]
        before.is_plain(after, i) && #[trigger] after.is_plain(before, j) && !before.is_named_at(i)
            && !after.is_named_at(j) && before.is_owner_at(i) && before.key_at(i, ContextKey::Role)
            == after.key_at(j, ContextKey::Role) ==> partners.before@[i] is Some
            || partners.after@[j] is Some
}

/// Two plain nameless pieces of syntax with the same kind and field are both left over only
/// where a pair crosses them.
pub open spec fn shapes_exhausted(before: Side<'_>, after: Side<'_>, partners: Partners) -> bool {
    forall|i: int, j: int| #[trigger]
        before.is_plain(after, i) && #[trigger] after.is_plain(before, j) && !before.is_named_at(i)
            && !after.is_named_at(j) && !before.is_owner_at(i) && !after.is_owner_at(j)
            && before.shape_at(i) == after.shape_at(j) ==> partners.before@[i] is Some
            || partners.after@[j] is Some || is_crossed(partners, i, j)
}

/// Two free decorations of paired owners with the same kind and field, without an echo of the
/// other side inside, are both left over only where a pair crosses them.
pub open spec fn decorations_exhausted(
    before: Side<'_>,
    after: Side<'_>,
    partners: Partners,
    end: int,
) -> bool {
    forall|i: int, j: int|
        0 <= i < end && #[trigger] before.is_decoration(after, i) && #[trigger] after.is_decoration(
            before,
            j,
        ) && before.linked@[before.node_at(i).decoration_owner->0 as int]
            == after.node_at(j).decoration_owner && before.shape_at(i) == after.shape_at(j)
            ==> partners.before@[i] is Some || partners.after@[j] is Some || is_crossed(
            partners,
            i,
            j,
        )
}

/// Before children of two paired contexts.
pub open spec fn before_side<'a>(
    scene: Scene<'a>,
    links: ContextLinks,
    nodes: Vec<NodeId>,
) -> Side<'a> {
    Side {
        tree: &scene.pair.before,
        facts: scene.before,
        linked: &links.partners.before,
        nodes: &nodes,
    }
}

/// After children of two paired contexts.
pub open spec fn after_side<'a>(
    scene: Scene<'a>,
    links: ContextLinks,
    nodes: Vec<NodeId>,
) -> Side<'a> {
    Side {
        tree: &scene.pair.after,
        facts: scene.after,
        linked: &links.partners.after,
        nodes: &nodes,
    }
}

/// Pairs agree, and plain children with equal names, owners of one role and pieces of syntax of
/// one shape find partners as far as they last.
pub open spec fn children_matched(
    before: Side<'_>,
    after: Side<'_>,
    partners: Partners,
    renames: bool,
) -> bool {
    &&& child_pairs_ok(before, after, partners)
    &&& pairs_kept(before, after, partners, renames)
    &&& names_exhausted(before, after, partners)
    &&& owners_exhausted(before, after, partners)
    &&& shapes_exhausted(before, after, partners)
    &&& decorations_exhausted(before, after, partners, before.nodes@.len() as int)
    &&& steps_match_children(before, after, partners, renames)
}

/// Keys of listed children, by position.
pub open spec fn listed_key(side: Side<'_>, indices: Seq<usize>, by: ContextKey) -> spec_fn(
    int,
) -> Option<Seq<usize>> {
    |i: int|
        if 0 <= i < side.nodes@.len() && indices.contains(i as usize) {
            Some(side.key_at(i, by))
        } else {
            None
        }
}

/// One comparison of listed children: equal keys pair by occurrence or, in order, so that two
/// equal keys are left over only where a pair crosses them.
pub open spec fn is_child_step(
    before: Side<'_>,
    after: Side<'_>,
    before_indices: Seq<usize>,
    after_indices: Seq<usize>,
    by: ContextKey,
    in_order: bool,
    earlier: Partners,
    later: Partners,
) -> bool {
    &&& later.grows(earlier)
    &&& from_step(before, after, before_indices, after_indices, by, later, earlier)
    &&& if in_order {
        step_crossed(before, after, before_indices, after_indices, by, later)
    } else {
        is_keyed_pass(
            later,
            earlier,
            listed_key(before, before_indices, by),
            listed_key(after, after_indices, by),
        )
    }
}

/// The kept children are free named ones, and among them all that hold no name of the other side.
pub open spec fn keeps_names(
    side: Side<'_>,
    other: Side<'_>,
    partner: Seq<Option<usize>>,
    other_partner: Seq<Option<usize>>,
    masks: Seq<bool>,
    other_masks: Seq<bool>,
    kept: Seq<usize>,
) -> bool {
    &&& spread(kept)
    &&& forall|k: int|
        0 <= k < kept.len() ==> (#[trigger] kept[k]) < side.nodes@.len() && in_step(
            side,
            partner,
            masks,
            Step::AllNamed,
            kept[k] as int,
        )
    &&& forall|i: int|
        0 <= i < side.nodes@.len() && #[trigger] in_step(side, partner, masks, Step::AllNamed, i)
            && !side.echoes_name(other, other_partner, other_masks, i) ==> kept.contains(i as usize)
    &&& exists|names: Seq<(usize, usize)>| #[trigger]
        are_free_names(other, other_partner, other_masks, names) && forall|i: int|
            0 <= i < side.nodes@.len() && #[trigger] in_step(
                side,
                partner,
                masks,
                Step::AllNamed,
                i,
            ) ==> (kept.contains(i as usize) <==> !shares_name(side, i, true, names))
}

/// Kinds and names of the free named children, and no others.
pub open spec fn are_free_names(
    side: Side<'_>,
    partner: Seq<Option<usize>>,
    masks: Seq<bool>,
    names: Seq<(usize, usize)>,
) -> bool {
    forall|name: (usize, usize)| #[trigger]
        names.contains(name) <==> exists|k: int|
            0 <= k < side.nodes@.len() && #[trigger] in_step(
                side,
                partner,
                masks,
                Step::AllNamed,
                k,
            ) && side.name_at(k) == name
}

/// The chosen children are the kept ones that own their contents, or those that do not.
pub open spec fn are_of_role(side: Side<'_>, kept: Seq<usize>, chosen: Seq<usize>, owners: bool) -> bool {
    &&& spread(chosen)
    &&& forall|i: usize| #[trigger]
        chosen.contains(i) <==> kept.contains(i) && side.is_owner_at(i as int) == owners
}

/// Named children pair by kind, field, role and name, the same occurrences with each other:
/// owners first, then ordinary syntax.
pub open spec fn is_named_pass(
    before: Side<'_>,
    after: Side<'_>,
    before_masks: Seq<bool>,
    after_masks: Seq<bool>,
    before_kept: Seq<usize>,
    after_kept: Seq<usize>,
    before_owners: Seq<usize>,
    after_owners: Seq<usize>,
    before_syntax: Seq<usize>,
    after_syntax: Seq<usize>,
    earlier: Partners,
    middle: Partners,
    later: Partners,
) -> bool {
    &&& keeps_names(
        before,
        after,
        earlier.before@,
        earlier.after@,
        before_masks,
        after_masks,
        before_kept,
    )
    &&& keeps_names(
        after,
        before,
        earlier.after@,
        earlier.before@,
        after_masks,
        before_masks,
        after_kept,
    )
    &&& are_of_role(before, before_kept, before_owners, true)
    &&& are_of_role(after, after_kept, after_owners, true)
    &&& are_of_role(before, before_kept, before_syntax, false)
    &&& are_of_role(after, after_kept, after_syntax, false)
    &&& is_child_step(
        before,
        after,
        before_owners,
        after_owners,
        ContextKey::RoleName,
        false,
        earlier,
        middle,
    )
    &&& is_child_step(
        before,
        after,
        before_syntax,
        after_syntax,
        ContextKey::RoleName,
        false,
        middle,
        later,
    )
}

/// Named children are paired by name.
pub open spec fn names_passed(
    before: Side<'_>,
    after: Side<'_>,
    before_masks: Seq<bool>,
    after_masks: Seq<bool>,
    earlier: Partners,
    later: Partners,
) -> bool {
    exists|
        before_kept: Seq<usize>,
        after_kept: Seq<usize>,
        before_owners: Seq<usize>,
        after_owners: Seq<usize>,
        before_syntax: Seq<usize>,
        after_syntax: Seq<usize>,
        middle: Partners,
    | #[trigger]
        is_named_pass(
            before,
            after,
            before_masks,
            after_masks,
            before_kept,
            after_kept,
            before_owners,
            after_owners,
            before_syntax,
            after_syntax,
            earlier,
            middle,
            later,
        )
}

/// Renames join named children that are left over, of one kind, field and role.
pub open spec fn renames_passed(
    before: Side<'_>,
    after: Side<'_>,
    before_masks: Seq<bool>,
    after_masks: Seq<bool>,
    earlier: Partners,
    later: Partners,
) -> bool {
    &&& later.grows(earlier)
    &&& forall|i: int|
        0 <= i < before.nodes@.len() && (#[trigger] later.before@[i]) is Some
            && earlier.before@[i] is None ==> in_step(
            before,
            earlier.before@,
            before_masks,
            Step::AllNamed,
            i,
        ) && in_step(
            after,
            earlier.after@,
            after_masks,
            Step::AllNamed,
            later.before@[i]->0 as int,
        ) && before.key_at(i, ContextKey::Role) == after.key_at(
            later.before@[i]->0 as int,
            ContextKey::Role,
        )
}

/// The kept children are the free named ones that no name of the other side stands for.
pub open spec fn keeps_renamable(
    side: Side<'_>,
    other: Side<'_>,
    partner: Seq<Option<usize>>,
    other_partner: Seq<Option<usize>>,
    masks: Seq<bool>,
    other_masks: Seq<bool>,
    kept: Seq<usize>,
) -> bool {
    &&& spread(kept)
    &&& forall|k: int|
        0 <= k < kept.len() ==> (#[trigger] kept[k]) < side.nodes@.len() && in_step(
            side,
            partner,
            masks,
            Step::AllNamed,
            kept[k] as int,
        )
    &&& exists|names: Seq<(usize, usize)>| #[trigger]
        are_free_names(other, other_partner, other_masks, names) && forall|i: int|
            0 <= i < side.nodes@.len() && #[trigger] in_step(
                side,
                partner,
                masks,
                Step::AllNamed,
                i,
            ) ==> (kept.contains(i as usize) <==> !shares_name(side, i, false, names))
}

/// Some node strictly below the child is linked.
pub open spec fn holds_link(side: Side<'_>, index: int) -> bool {
    exists|i: int|
        side.nodes@[index] < i < side.node_at(index).subtree_end && (#[trigger] side.linked@[i]) is Some
}

/// The edge joins two kept children of which neither holds a link.
pub open spec fn renames_at(
    before: Side<'_>,
    after: Side<'_>,
    before_kept: Seq<usize>,
    after_kept: Seq<usize>,
    edge: OrderedMatch,
    i: int,
    j: usize,
) -> bool {
    &&& before_kept[edge.before as int] == i
    &&& after_kept[edge.after as int] == j
    &&& !holds_link(before, i)
    &&& !holds_link(after, j as int)
}

/// Some edge joins the two kept children, and neither holds a link.
pub open spec fn is_renamed(
    before: Side<'_>,
    after: Side<'_>,
    before_kept: Seq<usize>,
    after_kept: Seq<usize>,
    matches: Seq<OrderedMatch>,
    i: int,
    j: usize,
) -> bool {
    exists|k: int|
        0 <= k < matches.len() && renames_at(
            before,
            after,
            before_kept,
            after_kept,
            #[trigger] matches[k],
            i,
            j,
        )
}

/// Keys by role of the kept children.
pub open spec fn role_keys(side: Side<'_>, kept: Seq<usize>) -> Seq<Seq<usize>> {
    Seq::new(kept.len(), |k: int| side.key_at(kept[k] as int, ContextKey::Role))
}

/// New pairs are those of an order-preserving matching by role, as far as no end holds a link.
pub open spec fn is_rename_pass(
    before: Side<'_>,
    after: Side<'_>,
    before_kept: Seq<usize>,
    after_kept: Seq<usize>,
    matches: Seq<OrderedMatch>,
    earlier: Partners,
    later: Partners,
) -> bool {
    &&& keys_agree(matches, role_keys(before, before_kept), role_keys(after, after_kept))
    &&& monotone(matches)
    &&& keys_blocked(matches, role_keys(before, before_kept), role_keys(after, after_kept))
    &&& later.grows(earlier)
    &&& renames_to(before, after, before_kept, after_kept, matches, earlier, later)
}

/// Free children are paired exactly where an edge renames them.
pub open spec fn renames_to(
    before: Side<'_>,
    after: Side<'_>,
    before_kept: Seq<usize>,
    after_kept: Seq<usize>,
    matches: Seq<OrderedMatch>,
    earlier: Partners,
    later: Partners,
) -> bool {
    forall|i: int, j: usize|
        0 <= i < before.nodes@.len() && earlier.before@[i] is None ==> (later.before@[i] == Some(j)
            <==> #[trigger] is_renamed(before, after, before_kept, after_kept, matches, i, j))
}

/// Renames pair the named children that are left over, in order, by kind, field and role.
pub open spec fn renames_exactly(
    before: Side<'_>,
    after: Side<'_>,
    before_masks: Seq<bool>,
    after_masks: Seq<bool>,
    earlier: Partners,
    later: Partners,
) -> bool {
    exists|before_kept: Seq<usize>, after_kept: Seq<usize>, matches: Seq<OrderedMatch>| #[trigger]
        is_rename_pass(before, after, before_kept, after_kept, matches, earlier, later)
            && keeps_renamable(
            before,
            after,
            earlier.before@,
            earlier.after@,
            before_masks,
            after_masks,
            before_kept,
        ) && keeps_renamable(
            after,
            before,
            earlier.after@,
            earlier.before@,
            after_masks,
            before_masks,
            after_kept,
        )
}

/// Nameless owners pair by role, then ordinary syntax by the names of its children, then in order
/// by kind and field.
pub open spec fn is_nameless_pass(
    before: Side<'_>,
    after: Side<'_>,
    before_masks: Seq<bool>,
    after_masks: Seq<bool>,
    before_lists: (Seq<usize>, Seq<usize>, Seq<usize>),
    after_lists: (Seq<usize>, Seq<usize>, Seq<usize>),
    earlier: Partners,
    owners: Partners,
    keyed: Partners,
    later: Partners,
) -> bool {
    &&& lists_step(
        before,
        earlier.before@,
        before_masks,
        Step::NamelessOwners,
        before_lists.0,
        before.nodes@.len() as int,
    )
    &&& lists_step(
        after,
        earlier.after@,
        after_masks,
        Step::NamelessOwners,
        after_lists.0,
        after.nodes@.len() as int,
    )
    &&& is_child_step(
        before,
        after,
        before_lists.0,
        after_lists.0,
        ContextKey::Role,
        false,
        earlier,
        owners,
    )
    &&& names_children(before, owners.before@, before_masks, before_lists.1)
    &&& names_children(after, owners.after@, after_masks, after_lists.1)
    &&& is_child_step(
        before,
        after,
        before_lists.1,
        after_lists.1,
        ContextKey::ChildNames,
        false,
        owners,
        keyed,
    )
    &&& lists_step(
        before,
        keyed.before@,
        before_masks,
        Step::NamelessSyntax,
        before_lists.2,
        before.nodes@.len() as int,
    )
    &&& lists_step(
        after,
        keyed.after@,
        after_masks,
        Step::NamelessSyntax,
        after_lists.2,
        after.nodes@.len() as int,
    )
    &&& is_child_step(
        before,
        after,
        before_lists.2,
        after_lists.2,
        ContextKey::Shape,
        true,
        keyed,
        later,
    )
}

/// The listed children are free nameless syntax with a named child.
pub open spec fn names_children(
    side: Side<'_>,
    partner: Seq<Option<usize>>,
    masks: Seq<bool>,
    indices: Seq<usize>,
) -> bool {
    &&& spread(indices)
    &&& forall|i: int|
        0 <= i < side.nodes@.len() ==> (#[trigger] indices.contains(i as usize) <==> in_step(
            side,
            partner,
            masks,
            Step::NamelessSyntax,
            i,
        ) && side.key_at(i, ContextKey::ChildNames).len() > 2)
}

/// Nameless children are paired.
pub open spec fn nameless_passed(
    before: Side<'_>,
    after: Side<'_>,
    before_masks: Seq<bool>,
    after_masks: Seq<bool>,
    earlier: Partners,
    later: Partners,
) -> bool {
    exists|
        before_lists: (Seq<usize>, Seq<usize>, Seq<usize>),
        after_lists: (Seq<usize>, Seq<usize>, Seq<usize>),
        owners: Partners,
        keyed: Partners,
    | #[trigger]
        is_nameless_pass(
            before,
            after,
            before_masks,
            after_masks,
            before_lists,
            after_lists,
            earlier,
            owners,
            keyed,
            later,
        )
}

/// The list holds the free decorations of the owner, in order.
pub open spec fn lists_decorations(
    side: Side<'_>,
    partner: Seq<Option<usize>>,
    masks: Seq<bool>,
    owner: NodeId,
    indices: Seq<usize>,
) -> bool {
    &&& spread(indices)
    &&& forall|k: int| 0 <= k < indices.len() ==> (#[trigger] indices[k]) < side.nodes@.len()
    &&& forall|i: int|
        0 <= i < side.nodes@.len() ==> (#[trigger] is_free_decoration(
            side,
            partner,
            masks,
            owner,
            i,
        ) <==> indices.contains(i as usize))
}

/// Listed decorations of equal content pair in order.
pub open spec fn is_content_step(
    before: Side<'_>,
    after: Side<'_>,
    before_indices: Seq<usize>,
    after_indices: Seq<usize>,
    earlier: Partners,
    later: Partners,
) -> bool {
    &&& later.grows(earlier)
    &&& forall|i: int|
        0 <= i < before.nodes@.len() && (#[trigger] later.before@[i]) is Some
            && earlier.before@[i] is None ==> before_indices.contains(i as usize)
            && after_indices.contains(later.before@[i]->0) && before.full_at(i) == after.full_at(
            later.before@[i]->0 as int,
        )
    &&& forall|i: usize, j: usize| #[trigger]
        before_indices.contains(i) && #[trigger] after_indices.contains(j) && before.full_at(
            i as int,
        ) == after.full_at(j as int) ==> later.before@[i as int] is Some
            || later.after@[j as int] is Some || is_crossed(later, i as int, j as int)
}

/// The decorations of two owners pair by content, then by structure, then by kind and field.
pub open spec fn is_owner_step(
    before: Side<'_>,
    after: Side<'_>,
    before_masks: Seq<bool>,
    after_masks: Seq<bool>,
    before_owner: NodeId,
    after_owner: NodeId,
    before_lists: (Seq<usize>, Seq<usize>, Seq<usize>),
    after_lists: (Seq<usize>, Seq<usize>, Seq<usize>),
    earlier: Partners,
    exact: Partners,
    shaped: Partners,
    later: Partners,
) -> bool {
    &&& lists_decorations(before, earlier.before@, before_masks, before_owner, before_lists.0)
    &&& lists_decorations(after, earlier.after@, after_masks, after_owner, after_lists.0)
    &&& is_content_step(before, after, before_lists.0, after_lists.0, earlier, exact)
    &&& lists_decorations(before, exact.before@, before_masks, before_owner, before_lists.1)
    &&& lists_decorations(after, exact.after@, after_masks, after_owner, after_lists.1)
    &&& is_child_step(
        before,
        after,
        before_lists.1,
        after_lists.1,
        ContextKey::Structure,
        true,
        exact,
        shaped,
    )
    &&& lists_decorations(before, shaped.before@, before_masks, before_owner, before_lists.2)
    &&& lists_decorations(after, shaped.after@, after_masks, after_owner, after_lists.2)
    &&& is_child_step(
        before,
        after,
        before_lists.2,
        after_lists.2,
        ContextKey::Shape,
        true,
        shaped,
        later,
    )
}

/// The decorations of two owners are paired.
#[verifier::opaque]
pub open spec fn owner_passed(
    before: Side<'_>,
    after: Side<'_>,
    before_masks: Seq<bool>,
    after_masks: Seq<bool>,
    before_owner: NodeId,
    after_owner: NodeId,
    earlier: Partners,
    later: Partners,
) -> bool {
    exists|
        before_lists: (Seq<usize>, Seq<usize>, Seq<usize>),
        after_lists: (Seq<usize>, Seq<usize>, Seq<usize>),
        exact: Partners,
        shaped: Partners,
    | #[trigger]
        is_owner_step(
            before,
            after,
            before_masks,
            after_masks,
            before_owner,
            after_owner,
            before_lists,
            after_lists,
            earlier,
            exact,
            shaped,
            later,
        )
}

/// The decorations of a child's owner are paired with those of the node that the owner is linked
/// to, then with those of its partner among the children.
pub open spec fn is_decoration_step(
    before: Side<'_>,
    after: Side<'_>,
    before_masks: Seq<bool>,
    after_masks: Seq<bool>,
    index: int,
    earlier: Partners,
    middle: Partners,
    later: Partners,
) -> bool {
    match before.node_at(index).decoration_owner {
        Some(owner) => {
            &&& if owner < before.linked@.len() && before.linked@[owner as int] is Some {
                owner_passed(
                    before,
                    after,
                    before_masks,
                    after_masks,
                    owner,
                    before.linked@[owner as int]->0,
                    earlier,
                    middle,
                )
            } else {
                middle == earlier
            }
            &&& if exists|p: int| is_partnered_at(before, middle, owner, p) {
                exists|p: int| #[trigger]
                    is_partnered_at(before, middle, owner, p) && owner_passed(
                        before,
                        after,
                        before_masks,
                        after_masks,
                        owner,
                        after.nodes@[middle.before@[p]->0 as int],
                        middle,
                        later,
                    )
            } else {
                later == middle
            }
        },
        None => middle == earlier && later == earlier,
    }
}

/// The node is the first child at the position, and has a partner.
pub open spec fn is_partnered_at(side: Side<'_>, partners: Partners, node: NodeId, p: int) -> bool {
    0 <= p < side.nodes@.len() && side.nodes@[p] == node && partners.before@[p] is Some && forall|k: int|
        0 <= k < p ==> (#[trigger] side.nodes@[k]) != node
}

/// Child by child the decorations of its owner are paired.
pub open spec fn are_decoration_steps(
    before: Side<'_>,
    after: Side<'_>,
    before_masks: Seq<bool>,
    after_masks: Seq<bool>,
    steps: Seq<Partners>,
    middles: Seq<Partners>,
) -> bool {
    forall|k: int|
        0 <= k < middles.len() ==> is_decoration_step(
            before,
            after,
            before_masks,
            after_masks,
            k,
            steps[k],
            #[trigger] middles[k],
            steps[k + 1],
        )
}

/// All decorations of matched owners are paired.
pub open spec fn decorations_passed(
    before: Side<'_>,
    after: Side<'_>,
    before_masks: Seq<bool>,
    after_masks: Seq<bool>,
    earlier: Partners,
    later: Partners,
) -> bool {
    exists|steps: Seq<Partners>, middles: Seq<Partners>| #[trigger]
        are_decoration_steps(before, after, before_masks, after_masks, steps, middles)
            && middles.len() == before.nodes@.len() && steps.len() == middles.len() + 1 && steps[0]
            == earlier && steps.last() == later
}

/// The order in which children are matched: by name; where renames are allowed, those left over;
/// nameless ones; and decorations. Children with an echo of the other side inside may be masked.
pub open spec fn is_child_matching(
    before: Side<'_>,
    after: Side<'_>,
    before_masks: Seq<bool>,
    after_masks: Seq<bool>,
    renames: bool,
    blank: Partners,
    named: Partners,
    renamed: Partners,
    nameless: Partners,
    partners: Partners,
) -> bool {
    &&& masks_echo(before, after, before_masks)
    &&& masks_echo(after, before, after_masks)
    &&& forall|i: int|
        0 <= i < before_masks.len() ==> (#[trigger] before_masks[i] <==> is_masked(
            before,
            after,
            true,
            i,
        ))
    &&& forall|i: int|
        0 <= i < after_masks.len() ==> (#[trigger] after_masks[i] <==> is_masked(
            after,
            before,
            false,
            i,
        ))
    &&& forall|i: int| 0 <= i < blank.before@.len() ==> (#[trigger] blank.before@[i]) is None
    &&& names_passed(before, after, before_masks, after_masks, blank, named)
    &&& if renames {
        renames_passed(before, after, before_masks, after_masks, named, renamed)
            && renames_exactly(before, after, before_masks, after_masks, named, renamed)
    } else {
        renamed == named
    }
    &&& nameless_passed(before, after, before_masks, after_masks, renamed, nameless)
    &&& decorations_passed(before, after, before_masks, after_masks, nameless, partners)
}

/// Children are matched step by step.
pub open spec fn steps_match_children(
    before: Side<'_>,
    after: Side<'_>,
    partners: Partners,
    renames: bool,
) -> bool {
    exists|
        before_masks: Seq<bool>,
        after_masks: Seq<bool>,
        blank: Partners,
        named: Partners,
        renamed: Partners,
        nameless: Partners,
    | #[trigger]
        is_child_matching(
            before,
            after,
            before_masks,
            after_masks,
            renames,
            blank,
            named,
            renamed,
            nameless,
            partners,
        )
}

pub open spec fn role_code(role: CorrespondenceRole) -> usize {
    match role {
        CorrespondenceRole::Transparent => 0,
        CorrespondenceRole::LocalOwner => 1,
        CorrespondenceRole::HardOwner => 2,
    }
}

fn role_number(role: CorrespondenceRole) -> (code: usize)
    ensures
        code == role_code(role),
{
    match role {
        CorrespondenceRole::Transparent => 0,
        CorrespondenceRole::LocalOwner => 1,
        CorrespondenceRole::HardOwner => 2,
    }
}

/// How closely two contexts are compared; every comparison covers kind and field.
#[derive(Clone, Copy, PartialEq, Eq, Structural)]
pub enum ContextKey {
    /// Role and name.
    RoleName,
    /// Role alone.
    Role,
    /// Names of the immediate children.
    ChildNames,
    /// Nothing more.
    Shape,
    /// Structure without texts.
    Structure,
}

/// What one child adds to a key of child names: its kind, field and name, or the text of an
/// identifier in a field.
pub open spec fn child_words(tree: SyntaxTree, facts: Facts, child: int) -> Seq<usize> {
    let node = tree.nodes@[child];
    let symbols = facts.symbols@[child];
    if node.correspondence != CorrespondenceRole::Transparent {
        Seq::empty()
    } else if symbols.identity is Some {
        seq![symbols.kind, symbols.slot, symbols.identity->0]
    } else if node.slot is Some && (node.leaf matches Some(leaf) && leaf.role
        == LeafRole::Identifier) && symbols.payload is Some {
        seq![symbols.kind, symbols.slot, symbols.payload->0]
    } else {
        Seq::empty()
    }
}

/// Words of a list of children.
pub open spec fn children_words(tree: SyntaxTree, facts: Facts, children: Seq<NodeId>) -> Seq<usize>
    decreases children.len(),
{
    if children.len() == 0 {
        Seq::empty()
    } else {
        children_words(tree, facts, children.drop_last()) + child_words(
            tree,
            facts,
            children.last() as int,
        )
    }
}

/// Key of one context.
pub open spec fn context_key_of(tree: SyntaxTree, facts: Facts, id: int, by: ContextKey) -> Seq<usize> {
    let symbols = facts.symbols@[id];
    let role = role_code(tree.nodes@[id].correspondence);
    match by {
        ContextKey::Shape => seq![symbols.kind, symbols.slot],
        ContextKey::Role => seq![symbols.kind, symbols.slot, role],
        ContextKey::RoleName => match symbols.identity {
            Some(identity) => seq![symbols.kind, symbols.slot, role, identity],
            None => seq![symbols.kind, symbols.slot, role],
        },
        ContextKey::Structure => seq![symbols.kind, symbols.slot, facts.prints@[id].shape],
        ContextKey::ChildNames => seq![symbols.kind, symbols.slot] + children_words(
            tree,
            facts,
            tree.nodes@[id].children@,
        ),
    }
}

/// Key of one context.
pub fn context_key(tree: &SyntaxTree, facts: &Facts, id: NodeId, by: ContextKey) -> (key: Vec<usize>)
    requires
        tree.wf(),
        facts.fits(*tree),
        tree.has_node(id as int),
    ensures
        key@ == context_key_of(*tree, *facts, id as int, by),
{
    let symbols = facts.symbols[id];
    let mut key: Vec<usize> = Vec::new();
    key.push(symbols.kind);
    key.push(symbols.slot);
    match by {
        ContextKey::Shape => {},
        ContextKey::Role => {
            key.push(role_number(tree.nodes[id].correspondence));
        },
        ContextKey::RoleName => {
            key.push(role_number(tree.nodes[id].correspondence));
            if let Some(identity) = symbols.identity {
                key.push(identity);
            }
        },
        ContextKey::Structure => {
            key.push(facts.prints[id].shape);
        },
        ContextKey::ChildNames => {
            push_child_names(tree, facts, id, &mut key);
        },
    }
    assert(key@ =~= context_key_of(*tree, *facts, id as int, by));
    key
}

/// Names and identifier fields of a node's immediate children.
/// Deeper composites are matched only after this node has a partner.
fn push_child_names(tree: &SyntaxTree, facts: &Facts, id: NodeId, key: &mut Vec<usize>)
    requires
        tree.wf(),
        facts.fits(*tree),
        tree.has_node(id as int),
    ensures
        final(key)@ == old(key)@ + children_words(*tree, *facts, tree.nodes@[id as int].children@),
{
    let ghost start = key@;
    let ghost children = tree.nodes@[id as int].children@;
    let mut position: usize = 0;
    proof {
        assert(children.take(0) =~= Seq::<NodeId>::empty());
        assert(start + children_words(*tree, *facts, children.take(0)) =~= start);
    }
    while position < tree.nodes[id].children.len()
        invariant
            tree.wf(),
            facts.fits(*tree),
            tree.has_node(id as int),
            children == tree.nodes@[id as int].children@,
            position <= children.len(),
            key@ == start + children_words(*tree, *facts, children.take(position as int)),
        decreases children.len() - position,
    {
        let child = tree.nodes[id].children[position];
        proof {
            assert(children_hold(tree.nodes@, id as int));
            assert(tree.nodes@[id as int].children[position as int] == child);
            assert(node_fits(
                tree.nodes@[id as int],
                id as int,
                tree.nodes@.len() as int,
                tree.source.data().len() as int,
            ));
        }
        let ghost earlier = key@;
        let node = &tree.nodes[child];
        if node.is_ordered_syntax() {
            let symbols = facts.symbols[child];
            let is_identifier = match node.leaf {
                Some(leaf) => leaf.role == LeafRole::Identifier,
                None => false,
            };
            if let Some(identity) = symbols.identity {
                key.push(symbols.kind);
                key.push(symbols.slot);
                key.push(identity);
            } else if node.slot.is_some() && is_identifier {
                if let Some(text) = symbols.payload {
                    key.push(symbols.kind);
                    key.push(symbols.slot);
                    key.push(text);
                }
            }
        }
        proof {
            assert(key@ =~= earlier + child_words(*tree, *facts, child as int));
            assert(children.take(position + 1).drop_last() =~= children.take(position as int));
            assert(children.take(position + 1).last() == child);
            assert(key@ =~= start + children_words(*tree, *facts, children.take(position + 1)));
        }
        position += 1;
    }
    assert(children.take(children.len() as int) =~= children);
}

/// Some child has the content.
spec fn is_content(side: Side<'_>, print: usize) -> bool {
    exists|k: int| 0 <= k < side.nodes@.len() && #[trigger] side.full_at(k) == print
}

/// A node inside the child has the content of a target.
spec fn wraps_target(side: Side<'_>, targets: Targets, outer: int) -> bool {
    exists|at: int|
        outer < at < side.tree.nodes@[outer].subtree_end && targets.first@.contains_key(
            (#[trigger] side.facts.prints@[at]).full,
        )
}

/// Unique and repeated contents among the free named children of one revision.
struct Targets {
    first: HashMap<usize, usize>,
    repeated: HashMap<usize, bool>,
}

impl Targets {
    /// Every target is a node of the tree.
    spec fn below(self, bound: int) -> bool {
        forall|print: usize| #[trigger]
            self.first@.contains_key(print) ==> self.first@[print] < bound
    }

    /// Every target content is the content of a child.
    spec fn drawn_from(self, side: Side<'_>) -> bool {
        forall|print: usize| #[trigger] self.first@.contains_key(print) ==> is_content(side, print)
    }

    /// The contents of the first free named children, each with its first child, and those that
    /// come more than once.
    spec fn lists(self, side: Side<'_>, count: int) -> bool {
        &&& forall|print: usize| #[trigger]
            self.first@.contains_key(print) <==> exists|k: int|
                0 <= k < count && #[trigger] is_target(side, k, print)
        &&& forall|print: usize| #[trigger]
            self.first@.contains_key(print) ==> exists|k: int|
                0 <= k < count && #[trigger] is_target(side, k, print) && self.first@[print]
                    == side.nodes@[k]
        &&& forall|print: usize| #[trigger]
            self.repeated@.contains_key(print) <==> exists|k: int, l: int|
                0 <= k < l < count && #[trigger] is_target(side, k, print) && #[trigger] is_target(
                    side,
                    l,
                    print,
                )
    }

    fn new(side: &Side<'_>) -> (targets: Targets)
        requires
            side.wf(),
        ensures
            targets.below(side.tree.nodes@.len() as int),
            targets.drawn_from(*side),
            targets.lists(*side, side.nodes@.len() as int),
    {
        let mut targets = Targets { first: HashMap::new(), repeated: HashMap::new() };
        let mut index: usize = 0;
        while index < side.nodes.len()
            invariant
                side.wf(),
                index <= side.nodes@.len(),
                targets.below(side.tree.nodes@.len() as int),
                targets.drawn_from(*side),
                targets.lists(*side, index as int),
            decreases side.nodes@.len() - index,
        {
            let ghost earlier = targets;
            if !side.reserved(index) && side.named(index) {
                let id = side.nodes[index];
                let print = side.facts.prints[id].full;
                assert(is_content(*side, print)) by {
                    assert(side.full_at(index as int) == print);
                }
                if targets.first.contains_key(&print) {
                    targets.repeated.insert(print, true);
                } else {
                    targets.first.insert(print, id);
                }
            }
            proof {
                lemma_targets_more(earlier, targets, *side, index as int);
            }
            index += 1;
        }
        targets
    }

    fn has(&self, print: usize) -> (result: bool)
        ensures
            result == self.first@.contains_key(print),
    {
        self.first.contains_key(&print)
    }

    /// The only target with the content.
    fn only(&self, print: usize) -> (target: Option<usize>)
        ensures
            target matches Some(id) ==> self.first@.contains_key(print) && self.first@[print] == id,
            target is Some <==> self.first@.contains_key(print) && !self.repeated@.contains_key(
                print,
            ),
    {
        if self.repeated.contains_key(&print) {
            return None;
        }
        match self.first.get(&print) {
            Some(id) => Some(*id),
            None => None,
        }
    }
}

/// The child is free and named and has the content.
pub open spec fn is_target(side: Side<'_>, index: int, print: usize) -> bool {
    !side.is_reserved(index) && side.is_named_at(index) && side.full_at(index) == print
}

/// The free named child is the only one with the content.
pub open spec fn is_only_target(side: Side<'_>, index: int, print: usize) -> bool {
    &&& 0 <= index < side.nodes@.len()
    &&& is_target(side, index, print)
    &&& forall|k: int|
        0 <= k < side.nodes@.len() && #[trigger] is_target(side, k, print) ==> k == index
}

/// One more child.
proof fn lemma_targets_more(earlier: Targets, later: Targets, side: Side<'_>, index: int)
    requires
        0 <= index < side.nodes@.len(),
        earlier.lists(side, index),
        ({
            let print = side.full_at(index);
            if is_target(side, index, print) {
                if earlier.first@.contains_key(print) {
                    later.first@ == earlier.first@ && later.repeated@ == earlier.repeated@.insert(
                        print,
                        true,
                    )
                } else {
                    later.first@ == earlier.first@.insert(print, side.nodes@[index])
                        && later.repeated@ == earlier.repeated@
                }
            } else {
                later == earlier
            }
        }),
    ensures
        later.lists(side, index + 1),
{
    let added = side.full_at(index);
    assert forall|print: usize| #[trigger] later.first@.contains_key(print) <==> exists|k: int|
        0 <= k < index + 1 && #[trigger] is_target(side, k, print) by {
        if later.first@.contains_key(print) {
            if earlier.first@.contains_key(print) {
                let k = choose|k: int| 0 <= k < index && #[trigger] is_target(side, k, print);
                assert(0 <= k < index + 1 && is_target(side, k, print));
            } else {
                assert(is_target(side, index, print));
            }
        }
        if exists|k: int| 0 <= k < index + 1 && #[trigger] is_target(side, k, print) {
            let k = choose|k: int| 0 <= k < index + 1 && #[trigger] is_target(side, k, print);
            if k < index {
                assert(earlier.first@.contains_key(print));
            } else {
                assert(print == added);
            }
        }
    }
    assert forall|print: usize| #[trigger] later.first@.contains_key(print) implies exists|k: int|
        0 <= k < index + 1 && #[trigger] is_target(side, k, print) && later.first@[print]
            == side.nodes@[k] by {
        if earlier.first@.contains_key(print) {
            let k = choose|k: int|
                0 <= k < index && #[trigger] is_target(side, k, print) && earlier.first@[print]
                    == side.nodes@[k];
            assert(is_target(side, k, print) && later.first@[print] == side.nodes@[k]);
        } else {
            assert(is_target(side, index, print));
        }
    }
    assert forall|print: usize| #[trigger]
        later.repeated@.contains_key(print) <==> exists|k: int, l: int|
            0 <= k < l < index + 1 && #[trigger] is_target(side, k, print) && #[trigger] is_target(
                side,
                l,
                print,
            ) by {
        if later.repeated@.contains_key(print) {
            if earlier.repeated@.contains_key(print) {
                let (k, l) = choose|k: int, l: int|
                    0 <= k < l < index && #[trigger] is_target(side, k, print)
                        && #[trigger] is_target(side, l, print);
                assert(is_target(side, k, print) && is_target(side, l, print));
            } else {
                let k = choose|k: int| 0 <= k < index && #[trigger] is_target(side, k, print);
                assert(is_target(side, k, print) && is_target(side, index, print));
            }
        }
        if exists|k: int, l: int|
            0 <= k < l < index + 1 && #[trigger] is_target(side, k, print) && #[trigger] is_target(
                side,
                l,
                print,
            ) {
            let (k, l) = choose|k: int, l: int|
                0 <= k < l < index + 1 && #[trigger] is_target(side, k, print)
                    && #[trigger] is_target(side, l, print);
            if l < index {
                assert(earlier.repeated@.contains_key(print));
            } else {
                assert(earlier.first@.contains_key(print));
            }
        }
    }
}

/// The only target with a content.
proof fn lemma_only_target(targets: Targets, side: Side<'_>, print: usize)
    requires
        targets.lists(side, side.nodes@.len() as int),
    ensures
        targets.first@.contains_key(print) && !targets.repeated@.contains_key(print)
            <==> exists|t: int| #[trigger] is_only_target(side, t, print),
        forall|t: int| #[trigger]
            is_only_target(side, t, print) ==> targets.first@[print] == side.nodes@[t],
{
    if targets.first@.contains_key(print) {
        let k = choose|k: int|
            0 <= k < side.nodes@.len() && #[trigger] is_target(side, k, print)
                && targets.first@[print] == side.nodes@[k];
        if !targets.repeated@.contains_key(print) {
            assert forall|l: int|
                0 <= l < side.nodes@.len() && #[trigger] is_target(side, l, print) implies l
                == k by {
                if l < k {
                    assert(is_target(side, l, print) && is_target(side, k, print));
                } else if l > k {
                    assert(is_target(side, k, print) && is_target(side, l, print));
                }
            }
            assert(is_only_target(side, k, print));
        }
    }
    assert forall|t: int| #[trigger] is_only_target(side, t, print) implies targets.first@[print]
        == side.nodes@[t] && !targets.repeated@.contains_key(print)
        && targets.first@.contains_key(print) by {
        assert(is_target(side, t, print));
    }
}

/// Whether the node of one side can be the node of the other without the nodes around it.
pub open spec fn unwraps(
    side: Side<'_>,
    other: Side<'_>,
    unwrapping: bool,
    node: int,
    target: int,
) -> bool {
    if unwrapping {
        reparenting_of(
            SyntaxPair { before: *side.tree, after: *other.tree },
            side.linked@,
            other.linked@,
            node,
            target,
        ) is Some
    } else {
        reparenting_of(
            SyntaxPair { before: *other.tree, after: *side.tree },
            other.linked@,
            side.linked@,
            target,
            node,
        ) is Some
    }
}

/// The node inside the outer one survives unwrapped as the only child of the other side with its
/// content, and nothing between the two nodes forbids that.
pub open spec fn survives_at(
    side: Side<'_>,
    other: Side<'_>,
    unwrapping: bool,
    outer: int,
    at: int,
) -> bool {
    &&& outer < at < side.tree.nodes@[outer].subtree_end
    &&& side.tree.nodes@[at].is_composite()
    &&& containment_path(*side.tree, side.linked@, Some(outer as usize), at) is Some
    &&& exists|t: int| #[trigger]
        is_only_target(other, t, side.facts.prints@[at].full) && unwraps(
            side,
            other,
            unwrapping,
            at,
            other.nodes@[t] as int,
        )
}

/// One node inside the outer one survives unwrapped, and no other.
pub open spec fn wraps_once(side: Side<'_>, other: Side<'_>, unwrapping: bool, outer: int) -> bool {
    exists|at: int| #[trigger]
        survives_at(side, other, unwrapping, outer, at) && forall|more: int| #[trigger]
            survives_at(side, other, unwrapping, outer, more) ==> more == at
}

/// A free child with a content that the other side lacks wraps one node that survives unwrapped.
pub open spec fn is_masked(side: Side<'_>, other: Side<'_>, unwrapping: bool, index: int) -> bool {
    &&& !side.is_reserved(index)
    &&& forall|k: int|
        0 <= k < other.nodes@.len() ==> !#[trigger] is_target(other, k, side.full_at(index))
    &&& wraps_once(side, other, unwrapping, side.nodes@[index] as int)
}

/// Children that wrap exactly one piece of content that survives unwrapped on the other side.
///
/// `unwrapping` says that the wrappers are on the before side.
fn masked_children(
    pair: &SyntaxPair,
    links: &ContextLinks,
    side: &Side<'_>,
    targets: &Targets,
    unwrapping: bool,
    Ghost(other): Ghost<Side<'_>>,
) -> (masks: Vec<bool>)
    requires
        pair.wf(),
        links.wf(pair.before.nodes@.len() as int, pair.after.nodes@.len() as int),
        side.wf(),
        unwrapping ==> *side.tree == pair.before && targets.below(pair.after.nodes@.len() as int),
        !unwrapping ==> *side.tree == pair.after && targets.below(pair.before.nodes@.len() as int),
        faces(*pair, *links, *side, other, unwrapping),
        targets.lists(other, other.nodes@.len() as int),
    ensures
        forall|i: int|
            0 <= i < masks@.len() ==> (#[trigger] masks@[i] <==> is_masked(
                *side,
                other,
                unwrapping,
                i,
            )),
        masks@.len() == side.nodes@.len(),
        forall|i: int|
            0 <= i < masks@.len() && #[trigger] masks@[i] ==> !side.is_reserved(i) && wraps_target(
                *side,
                *targets,
                side.nodes@[i] as int,
            ),
{
    let mut masks: Vec<bool> = Vec::new();
    let mut index: usize = 0;
    while index < side.nodes.len()
        invariant
            pair.wf(),
            links.wf(pair.before.nodes@.len() as int, pair.after.nodes@.len() as int),
            side.wf(),
            unwrapping ==> *side.tree == pair.before && targets.below(
                pair.after.nodes@.len() as int,
            ),
            !unwrapping ==> *side.tree == pair.after && targets.below(
                pair.before.nodes@.len() as int,
            ),
            index <= side.nodes@.len(),
            masks@.len() == index,
            faces(*pair, *links, *side, other, unwrapping),
            targets.lists(other, other.nodes@.len() as int),
            forall|i: int|
                0 <= i < masks@.len() ==> (#[trigger] masks@[i] <==> is_masked(
                    *side,
                    other,
                    unwrapping,
                    i,
                )),
            forall|i: int|
                0 <= i < masks@.len() && #[trigger] masks@[i] ==> !side.is_reserved(i)
                    && wraps_target(*side, *targets, side.nodes@[i] as int),
        decreases side.nodes@.len() - index,
    {
        let outer = side.nodes[index];
        let masked = !side.reserved(index) && !targets.has(side.facts.prints[outer].full)
            && wraps_one_target(pair, links, side, targets, unwrapping, outer, Ghost(other));
        proof {
            let print = side.full_at(index as int);
            assert(print == side.facts.prints@[outer as int].full);
            let known = exists|k: int|
                0 <= k < other.nodes@.len() && #[trigger] is_target(other, k, print);
            assert(targets.first@.contains_key(print) <==> known);
            assert(masked <==> is_masked(*side, other, unwrapping, index as int));
        }
        masks.push(masked);
        index += 1;
    }
    masks
}

/// Check that exactly one descendant matches along an allowed wrapper path.
fn wraps_one_target(
    pair: &SyntaxPair,
    links: &ContextLinks,
    side: &Side<'_>,
    targets: &Targets,
    unwrapping: bool,
    outer: NodeId,
    Ghost(other): Ghost<Side<'_>>,
) -> (result: bool)
    requires
        pair.wf(),
        links.wf(pair.before.nodes@.len() as int, pair.after.nodes@.len() as int),
        side.wf(),
        side.tree.has_node(outer as int),
        unwrapping ==> *side.tree == pair.before && targets.below(pair.after.nodes@.len() as int),
        !unwrapping ==> *side.tree == pair.after && targets.below(pair.before.nodes@.len() as int),
        faces(*pair, *links, *side, other, unwrapping),
        targets.lists(other, other.nodes@.len() as int),
    ensures
        result ==> wraps_target(*side, *targets, outer as int),
        result == wraps_once(*side, other, unwrapping, outer as int),
{
    let ghost mut found: int = 0;
    assert(node_fits(
        side.tree.nodes@[outer as int],
        outer as int,
        side.tree.nodes@.len() as int,
        side.tree.source.data().len() as int,
    ));
    let end = side.tree.nodes[outer].subtree_end;
    let mut retained: bool = false;
    let mut at: usize = outer + 1;
    while at < end
        invariant
            pair.wf(),
            links.wf(pair.before.nodes@.len() as int, pair.after.nodes@.len() as int),
            side.wf(),
            outer < at,
            end == side.tree.nodes@[outer as int].subtree_end,
            end <= side.tree.nodes@.len(),
            unwrapping ==> *side.tree == pair.before && targets.below(
                pair.after.nodes@.len() as int,
            ),
            !unwrapping ==> *side.tree == pair.after && targets.below(
                pair.before.nodes@.len() as int,
            ),
            retained ==> wraps_target(*side, *targets, outer as int),
            faces(*pair, *links, *side, other, unwrapping),
            targets.lists(other, other.nodes@.len() as int),
            retained ==> survives_at(*side, other, unwrapping, outer as int, found) && found < at,
            forall|more: int|
                more < at && #[trigger] survives_at(*side, other, unwrapping, outer as int, more)
                    ==> retained && more == found,
        decreases end - at,
    {
        proof {
            lemma_only_target(*targets, other, side.facts.prints@[at as int].full);
        }
        if side.tree.nodes[at].composite() {
            if let Some(target) = targets.only(side.facts.prints[at].full) {
                let wrapper = if unwrapping {
                    unique_containment_reparenting(
                        pair,
                        &links.partners.before,
                        &links.partners.after,
                        at,
                        target,
                    )
                } else {
                    unique_containment_reparenting(
                        pair,
                        &links.partners.before,
                        &links.partners.after,
                        target,
                        at,
                    )
                };
                if wrapper.is_some() && unique_containment_path(
                    side.tree,
                    side.linked,
                    Some(outer),
                    at,
                ).is_some() {
                    proof {
                        let t = choose|t: int| #[trigger]
                            is_only_target(other, t, side.facts.prints@[at as int].full);
                        assert(target == other.nodes@[t]);
                        assert(unwraps(
                            *side,
                            other,
                            unwrapping,
                            at as int,
                            other.nodes@[t] as int,
                        ));
                        assert(survives_at(*side, other, unwrapping, outer as int, at as int));
                    }
                    if retained {
                        assert(survives_at(*side, other, unwrapping, outer as int, found));
                        return false;
                    }
                    assert(targets.first@.contains_key(side.facts.prints@[at as int].full));
                    proof {
                        found = at as int;
                    }
                    retained = true;
                }
            }
        }
        at += 1;
    }
    proof {
        if retained {
            assert(survives_at(*side, other, unwrapping, outer as int, found));
        }
    }
    retained
}

/// The two sides stand for the two revisions of a pair, under the same links.
spec fn faces(
    pair: SyntaxPair,
    links: ContextLinks,
    side: Side<'_>,
    other: Side<'_>,
    unwrapping: bool,
) -> bool {
    if unwrapping {
        *side.tree == pair.before && *other.tree == pair.after && side.linked@
            == links.partners.before@ && other.linked@ == links.partners.after@
    } else {
        *side.tree == pair.after && *other.tree == pair.before && side.linked@
            == links.partners.after@ && other.linked@ == links.partners.before@
    }
}

/// Some node strictly between two ids has this kind and name.
pub open spec fn names_inside(facts: Facts, start: int, end: int, name: (usize, usize)) -> bool {
    exists|i: int|
        start < i < end && (#[trigger] facts.symbols@[i]).kind == name.0
            && facts.symbols@[i].identity == Some(name.1)
}

/// Kinds and names of the closest named nodes of a range: owners hide what they hold, and a
/// named node hides what is below it.
pub open spec fn closest_names(
    tree: SyntaxTree,
    facts: Facts,
    at: int,
    end: int,
) -> Seq<(usize, usize)>
    decreases
        if at < end {
            end - at
        } else {
            0
        },
{
    let next = tree.nodes@[at].subtree_end;
    if at >= end {
        Seq::empty()
    } else if next <= at {
        Seq::empty()
    } else if tree.nodes@[at].correspondence != CorrespondenceRole::Transparent {
        closest_names(tree, facts, next as int, end)
    } else {
        match facts.symbols@[at].identity {
            Some(identity) => seq![(facts.symbols@[at].kind, identity)] + closest_names(
                tree,
                facts,
                next as int,
                end,
            ),
            None => closest_names(tree, facts, at + 1, end),
        }
    }
}

/// Kinds and names of the closest named descendants below a root.
///
/// Owners hide what they hold, and a named descendant hides what is below it.
pub fn descendant_identities(tree: &SyntaxTree, facts: &Facts, root: NodeId) -> (identities: Vec<
    (usize, usize),
>)
    requires
        tree.wf(),
        facts.fits(*tree),
        tree.has_node(root as int),
    ensures
        tree.nodes@[root as int].correspondence != CorrespondenceRole::Transparent
            ==> identities@.len() == 0,
        forall|k: int|
            0 <= k < identities@.len() ==> names_inside(
                *facts,
                root as int,
                tree.nodes@[root as int].subtree_end as int,
                #[trigger] identities@[k],
            ),
        tree.nodes@[root as int].correspondence == CorrespondenceRole::Transparent ==> identities@
            == closest_names(
            *tree,
            *facts,
            root + 1,
            tree.nodes@[root as int].subtree_end as int,
        ),
{
    let mut identities: Vec<(usize, usize)> = Vec::new();
    if !tree.nodes[root].is_ordered_syntax() {
        return identities;
    }
    assert(node_fits(
        tree.nodes@[root as int],
        root as int,
        tree.nodes@.len() as int,
        tree.source.data().len() as int,
    ));
    let end = tree.nodes[root].subtree_end;
    let mut at: usize = root + 1;
    assert(identities@ + closest_names(*tree, *facts, root + 1, end as int) =~= closest_names(
        *tree,
        *facts,
        root + 1,
        end as int,
    ));
    while at < end
        invariant
            tree.wf(),
            facts.fits(*tree),
            root < at,
            end == tree.nodes@[root as int].subtree_end,
            end <= tree.nodes@.len(),
            closest_names(*tree, *facts, root + 1, end as int) == identities@ + closest_names(
                *tree,
                *facts,
                at as int,
                end as int,
            ),
            forall|k: int|
                0 <= k < identities@.len() ==> names_inside(
                    *facts,
                    root as int,
                    end as int,
                    #[trigger] identities@[k],
                ),
        decreases tree.nodes@.len() - at,
    {
        proof {
            assert(node_fits(
                tree.nodes@[at as int],
                at as int,
                tree.nodes@.len() as int,
                tree.source.data().len() as int,
            ));
        }
        if !tree.nodes[at].is_ordered_syntax() {
            at = tree.nodes[at].subtree_end;
        } else if let Some(identity) = facts.symbols[at].identity {
            let ghost fewer = identities@;
            identities.push((facts.symbols[at].kind, identity));
            assert(fewer + closest_names(*tree, *facts, at as int, end as int) =~= identities@
                + closest_names(
                *tree,
                *facts,
                tree.nodes@[at as int].subtree_end as int,
                end as int,
            ));
            assert(names_inside(
                *facts,
                root as int,
                end as int,
                (facts.symbols@[at as int].kind, identity),
            )) by {
                assert(facts.symbols@[at as int].identity == Some(identity));
            }
            at = tree.nodes[at].subtree_end;
        } else {
            at += 1;
        }
    }
    assert(identities@ + closest_names(*tree, *facts, at as int, end as int) =~= identities@);
    identities
}

/// Whether a list holds a pair.
pub fn holds_pair(list: &Vec<(usize, usize)>, pair: (usize, usize)) -> (found: bool)
    ensures
        found == list@.contains(pair),
{
    let mut index: usize = 0;
    while index < list.len()
        invariant
            index <= list@.len(),
            forall|k: int| 0 <= k < index ==> list@[k] != pair,
        decreases list@.len() - index,
    {
        let entry = list[index];
        if entry.0 == pair.0 && entry.1 == pair.1 {
            assert(list@[index as int] == pair);
            return true;
        }
        index += 1;
    }
    false
}

/// Whether two lists share a pair other than the excepted one.
fn shares_pair(
    left: &Vec<(usize, usize)>,
    right: &Vec<(usize, usize)>,
    except: Option<(usize, usize)>,
) -> (found: bool)
    ensures
        found == exists|k: int|
            0 <= k < left@.len() && Some(#[trigger] left@[k]) != except && right@.contains(
                left@[k],
            ),
{
    let mut index: usize = 0;
    while index < left.len()
        invariant
            index <= left@.len(),
            forall|k: int|
                0 <= k < index ==> Some(#[trigger] left@[k]) == except || !right@.contains(
                    left@[k],
                ),
        decreases left@.len() - index,
    {
        let entry = left[index];
        let excepted = match except {
            Some(pair) => entry.0 == pair.0 && entry.1 == pair.1,
            None => false,
        };
        if !excepted && holds_pair(right, entry) {
            assert(Some(left@[index as int]) != except);
            return true;
        }
        index += 1;
    }
    false
}

/// Some named child has the kind and name.
spec fn is_name(side: Side<'_>, name: (usize, usize)) -> bool {
    exists|k: int|
        0 <= k < side.nodes@.len() && #[trigger] side.is_named_at(k) && side.name_at(k) == name
}

/// A listed child has the kind and name.
spec fn is_listed_name(side: Side<'_>, indices: Seq<usize>, name: (usize, usize)) -> bool {
    exists|k: int|
        0 <= k < indices.len() && side.name_at((#[trigger] indices[k]) as int) == name
}

/// Kinds and names of listed children.
fn identity_keys(side: &Side<'_>, indices: &Vec<usize>) -> (keys: Vec<(usize, usize)>)
    requires
        side.wf(),
        indices_below(indices@, side.nodes@.len() as int),
    ensures
        forall|k: int| 0 <= k < keys@.len() ==> is_listed_name(*side, indices@, #[trigger] keys@[k]),
        forall|k: int| 0 <= k < keys@.len() ==> is_name(*side, #[trigger] keys@[k]),
        forall|k: int|
            0 <= k < indices@.len() && side.is_named_at((#[trigger] indices@[k]) as int)
                ==> keys@.contains(side.name_at(indices@[k] as int)),
{
    let mut keys: Vec<(usize, usize)> = Vec::new();
    let mut index: usize = 0;
    while index < indices.len()
        invariant
            side.wf(),
            indices_below(indices@, side.nodes@.len() as int),
            index <= indices@.len(),
            forall|k: int|
                0 <= k < index && side.is_named_at((#[trigger] indices@[k]) as int)
                    ==> keys@.contains(side.name_at(indices@[k] as int)),
            forall|k: int| 0 <= k < keys@.len() ==> is_name(*side, #[trigger] keys@[k]),
            forall|k: int|
                0 <= k < keys@.len() ==> is_listed_name(*side, indices@, #[trigger] keys@[k]),
        decreases indices@.len() - index,
    {
        let ghost earlier = keys@;
        let id = side.nodes[indices[index]];
        assert(side.name_at(indices@[index as int] as int).0 == side.facts.symbols@[id as int].kind);
        if let Some(identity) = side.facts.symbols[id].identity {
            assert(is_name(*side, (side.facts.symbols@[id as int].kind, identity))) by {
                assert(side.is_named_at(indices@[index as int] as int));
            }
            keys.push((side.facts.symbols[id].kind, identity));
            assert(keys@[earlier.len() as int] == side.name_at(indices@[index as int] as int));
        }
        proof {
            assert forall|k: int|
                0 <= k < index + 1 && side.is_named_at(
                    (#[trigger] indices@[k]) as int,
                ) implies keys@.contains(side.name_at(indices@[k] as int)) by {
                if k < index {
                    let name = side.name_at(indices@[k] as int);
                    let i = choose|i: int| 0 <= i < earlier.len() && earlier[i] == name;
                    assert(keys@[i] == name);
                }
            }
        }
        index += 1;
    }
    keys
}

/// Names inside the child that stand for it: the closest ones below a transparent child.
pub open spec fn inner_names(side: Side<'_>, index: int) -> Seq<(usize, usize)> {
    if side.node_at(index).correspondence == CorrespondenceRole::Transparent {
        closest_names(
            *side.tree,
            *side.facts,
            side.nodes@[index] + 1,
            side.node_at(index).subtree_end as int,
        )
    } else {
        Seq::empty()
    }
}

/// The name is that of the child itself, which is spared.
pub open spec fn is_own_name(
    side: Side<'_>,
    index: int,
    spare_own: bool,
    name: (usize, usize),
) -> bool {
    spare_own && side.is_named_at(index) && side.name_at(index) == name
}

/// A name inside the child stands for it and belongs to the list.
pub open spec fn shares_name(
    side: Side<'_>,
    index: int,
    spare_own: bool,
    opposite: Seq<(usize, usize)>,
) -> bool {
    exists|k: int|
        0 <= k < inner_names(side, index).len() && !is_own_name(
            side,
            index,
            spare_own,
            #[trigger] inner_names(side, index)[k],
        ) && opposite.contains(inner_names(side, index)[k])
}

/// Which free children a matching step considers.
#[derive(Clone, Copy, PartialEq, Eq, Structural)]
pub enum Step {
    /// Nameless owners.
    NamelessOwners,
    /// Nameless ordinary syntax.
    NamelessSyntax,
    /// Every named child.
    AllNamed,
}

/// The step considers the child.
pub open spec fn in_step(
    side: Side<'_>,
    partner: Seq<Option<usize>>,
    masks: Seq<bool>,
    step: Step,
    index: int,
) -> bool {
    &&& partner[index] is None
    &&& !side.is_reserved(index)
    &&& !masks[index]
    &&& side.node_at(index).decoration_owner is None
    &&& match step {
        Step::NamelessOwners => !side.is_named_at(index) && side.is_owner_at(index),
        Step::NamelessSyntax => !side.is_named_at(index) && !side.is_owner_at(index),
        Step::AllNamed => side.is_named_at(index),
    }
}

/// Exactly the children that the step considers, in order.
pub open spec fn lists_step(
    side: Side<'_>,
    partner: Seq<Option<usize>>,
    masks: Seq<bool>,
    step: Step,
    indices: Seq<usize>,
    end: int,
) -> bool {
    &&& spread(indices)
    &&& forall|k: int|
        0 <= k < indices.len() ==> (#[trigger] indices[k]) < end && in_step(
            side,
            partner,
            masks,
            step,
            indices[k] as int,
        )
    &&& forall|i: int|
        0 <= i < end && #[trigger] in_step(side, partner, masks, step, i) ==> indices.contains(
            i as usize,
        )
}

/// Undecorated, unmatched, unreserved, unmasked children of one step.
fn step_children(side: &Side<'_>, partner: &Vec<Option<usize>>, masks: &Vec<bool>, step: Step) -> (indices:
    Vec<usize>)
    requires
        side.wf(),
        partner@.len() == side.nodes@.len(),
        masks@.len() == side.nodes@.len(),
    ensures
        indices_below(indices@, side.nodes@.len() as int),
        lists_step(*side, partner@, masks@, step, indices@, side.nodes@.len() as int),
{
    let mut indices: Vec<usize> = Vec::new();
    let mut index: usize = 0;
    while index < side.nodes.len()
        invariant
            side.wf(),
            partner@.len() == side.nodes@.len(),
            masks@.len() == side.nodes@.len(),
            index <= side.nodes@.len(),
            lists_step(*side, partner@, masks@, step, indices@, index as int),
        decreases side.nodes@.len() - index,
    {
        let ghost earlier = indices@;
        let free = partner[index].is_none() && !side.reserved(index) && !masks[index]
            && !side.decorated(index);
        let named = side.named(index);
        let ordered = side.ordered(index);
        let chosen = free && match step {
            Step::NamelessOwners => !named && !ordered,
            Step::NamelessSyntax => !named && ordered,
            Step::AllNamed => named,
        };
        if chosen {
            indices.push(index);
        }
        proof {
            assert(chosen == in_step(*side, partner@, masks@, step, index as int));
            assert forall|i: int|
                0 <= i < index + 1 && #[trigger] in_step(
                    *side,
                    partner@,
                    masks@,
                    step,
                    i,
                ) implies indices@.contains(i as usize) by {
                if i < index {
                    let k = choose|k: int| 0 <= k < earlier.len() && earlier[k] == i as usize;
                    assert(indices@[k] == i as usize);
                } else {
                    assert(indices@[indices@.len() - 1] == i as usize);
                }
            }
        }
        index += 1;
    }
    indices
}

/// Keys of listed children.
fn step_keys(side: &Side<'_>, indices: &Vec<usize>, by: ContextKey) -> (keys: Vec<Vec<usize>>)
    requires
        side.wf(),
        indices_below(indices@, side.nodes@.len() as int),
    ensures
        keys@.len() == indices@.len(),
        forall|k: int|
            0 <= k < keys@.len() ==> (#[trigger] keys@[k])@ == side.key_at(indices@[k] as int, by),
{
    let mut keys: Vec<Vec<usize>> = Vec::new();
    let mut index: usize = 0;
    while index < indices.len()
        invariant
            side.wf(),
            indices_below(indices@, side.nodes@.len() as int),
            index <= indices@.len(),
            keys@.len() == index,
            forall|k: int|
                0 <= k < keys@.len() ==> (#[trigger] keys@[k])@ == side.key_at(
                    indices@[k] as int,
                    by,
                ),
        decreases indices@.len() - index,
    {
        let id = side.nodes[indices[index]];
        keys.push(context_key(side.tree, side.facts, id, by));
        index += 1;
    }
    keys
}

/// Every key starts with kind and field.
proof fn lemma_key_shape(side: Side<'_>, index: int, by: ContextKey)
    ensures
        side.key_at(index, by).len() >= 2,
        (side.key_at(index, by)[0], side.key_at(index, by)[1]) == side.shape_at(index),
{
}

/// Two listed children with equal keys are never both left over.
spec fn step_exhausted(
    before: Side<'_>,
    after: Side<'_>,
    before_indices: Seq<usize>,
    after_indices: Seq<usize>,
    by: ContextKey,
    partners: Partners,
) -> bool {
    forall|i: usize, j: usize| #[trigger]
        before_indices.contains(i) && #[trigger] after_indices.contains(j) && before.key_at(
            i as int,
            by,
        ) == after.key_at(j as int, by) ==> partners.before@[i as int] is Some
            || partners.after@[j as int] is Some
}

/// Two listed children with equal keys are both left over only where a pair crosses them.
pub open spec fn step_crossed(
    before: Side<'_>,
    after: Side<'_>,
    before_indices: Seq<usize>,
    after_indices: Seq<usize>,
    by: ContextKey,
    partners: Partners,
) -> bool {
    forall|i: usize, j: usize| #[trigger]
        before_indices.contains(i) && #[trigger] after_indices.contains(j) && before.key_at(
            i as int,
            by,
        ) == after.key_at(j as int, by) ==> partners.before@[i as int] is Some
            || partners.after@[j as int] is Some || is_crossed(partners, i as int, j as int)
}

/// Keys of listed children.
spec fn listed_keys(side: Side<'_>, indices: Seq<usize>, by: ContextKey) -> Seq<Seq<usize>> {
    Seq::new(indices.len(), |k: int| side.key_at(indices[k] as int, by))
}

/// New pairs join listed children with equal keys.
pub open spec fn from_step(
    before: Side<'_>,
    after: Side<'_>,
    before_indices: Seq<usize>,
    after_indices: Seq<usize>,
    by: ContextKey,
    later: Partners,
    earlier: Partners,
) -> bool {
    forall|i: int|
        0 <= i < before.nodes@.len() && (#[trigger] later.before@[i]) is Some
            && earlier.before@[i] is None ==> before_indices.contains(i as usize)
            && after_indices.contains(later.before@[i]->0) && before.key_at(i, by)
            == after.key_at(later.before@[i]->0 as int, by)
}

/// The listed children decorate or not, and are named or not, alike.
spec fn are_alike(side: Side<'_>, indices: Seq<usize>, decorated: bool, named: bool) -> bool {
    forall|k: int|
        0 <= k < indices.len() ==> side.is_decorated_at((#[trigger] indices[k]) as int)
            == decorated && (decorated || side.is_named_at(indices[k] as int) == named)
}

/// Steps over children that are alike keep names and decorations apart.
proof fn lemma_kept_by_step(
    before: Side<'_>,
    after: Side<'_>,
    before_indices: Seq<usize>,
    after_indices: Seq<usize>,
    by: ContextKey,
    later: Partners,
    earlier: Partners,
    decorated: bool,
    named: bool,
)
    requires
        later.grows(earlier),
        before.nodes@.len() <= earlier.before@.len(),
        before.nodes@.len() <= usize::MAX,
        from_step(before, after, before_indices, after_indices, by, later, earlier),
        are_alike(before, before_indices, decorated, named),
        are_alike(after, after_indices, decorated, named),
        decorated || !named || by == ContextKey::RoleName,
    ensures
        forall|renames: bool| #[trigger]
            pairs_kept(before, after, earlier, renames) ==> pairs_kept(
                before,
                after,
                later,
                renames,
            ),
{
    assert forall|renames: bool| #[trigger]
        pairs_kept(before, after, earlier, renames) implies pairs_kept(
        before,
        after,
        later,
        renames,
    ) by {
        assert forall|i: int| 0 <= i < before.nodes@.len() implies ((
        #[trigger] later.before@[i]) matches Some(j) ==> before.is_decorated_at(i)
            == after.is_decorated_at(j as int) && (before.is_decorated_at(i) || renames
            || before.identity_at(i) == after.identity_at(j as int))) by {
            if later.before@[i] is Some {
                let j = later.before@[i]->0;
                if earlier.before@[i] is Some {
                    assert(later.before@[i] == earlier.before@[i]);
                } else {
                    let x = choose|x: int|
                        0 <= x < before_indices.len() && before_indices[x] == i as usize;
                    let y = choose|y: int| 0 <= y < after_indices.len() && after_indices[y] == j;
                    assert(before_indices[x] == i && after_indices[y] == j);
                    assert(before.is_decorated_at(before_indices[x] as int) == decorated);
                    assert(after.is_decorated_at(after_indices[y] as int) == decorated);
                    if !decorated && named {
                        assert(before.key_at(i, by)[3] == after.key_at(j as int, by)[3]);
                    }
                }
            }
        }
    }
}

/// A part of a step's children is alike.
proof fn lemma_alike(
    side: Side<'_>,
    partner: Seq<Option<usize>>,
    masks: Seq<bool>,
    step: Step,
    indices: Seq<usize>,
    chosen: Seq<usize>,
)
    requires
        lists_step(side, partner, masks, step, indices, side.nodes@.len() as int),
        forall|k: int| 0 <= k < chosen.len() ==> indices.contains(#[trigger] chosen[k]),
    ensures
        are_alike(side, chosen, false, step == Step::AllNamed),
{
    assert forall|k: int| 0 <= k < chosen.len() implies side.is_decorated_at(
        (#[trigger] chosen[k]) as int,
    ) == false && (side.is_named_at(chosen[k] as int) == (step == Step::AllNamed)) by {
        assert(indices.contains(chosen[k]));
        let m = choose|m: int| 0 <= m < indices.len() && indices[m] == chosen[k];
        assert(in_step(side, partner, masks, step, indices[m] as int));
    }
}

/// Pairs that equal keys select agree.
proof fn lemma_keyed_pairs_ok(
    before: Side<'_>,
    after: Side<'_>,
    before_indices: Seq<usize>,
    after_indices: Seq<usize>,
    by: ContextKey,
    matches: Seq<OrderedMatch>,
    later: Partners,
    earlier: Partners,
)
    requires
        child_pairs_ok(before, after, earlier),
        mutual(later.before@, later.after@),
        later.grows(earlier),
        new_pairs_from(later, earlier, before_indices, after_indices, matches),
        keys_agree(
            matches,
            listed_keys(before, before_indices, by),
            listed_keys(after, after_indices, by),
        ),
        forall|k: int|
            0 <= k < before_indices.len() ==> !before.is_reserved(
                (#[trigger] before_indices[k]) as int,
            ),
        forall|k: int|
            0 <= k < after_indices.len() ==> !after.is_reserved(
                (#[trigger] after_indices[k]) as int,
            ),
    ensures
        child_pairs_ok(before, after, later),
        from_step(before, after, before_indices, after_indices, by, later, earlier),
{
    assert forall|i: int| 0 <= i < before.nodes@.len() implies ((
    #[trigger] later.before@[i]) matches Some(j) ==> !before.is_reserved(i) && !after.is_reserved(
        j as int,
    ) && children_agree(before, after, i, j as int)) by {
        if later.before@[i] is Some {
            if earlier.before@[i] is None {
                let k = choose|k: int|
                    0 <= k < matches.len() && before_indices[(
                    #[trigger] matches[k]).before as int] == i
                        && after_indices[matches[k].after as int] == later.before@[i]->0;
                let edge = matches[k];
                let j = later.before@[i]->0 as int;
                assert(before_indices[edge.before as int] == i);
                assert(after_indices[edge.after as int] == j);
                assert(before.key_at(i, by) == after.key_at(j, by));
                lemma_key_shape(before, i, by);
                lemma_key_shape(after, j, by);
                assert(before.shape_at(i) == after.shape_at(j));
            } else {
                assert(later.before@[i] == earlier.before@[i]);
            }
        }
    }
    assert forall|i: int|
        0 <= i < before.nodes@.len() && (#[trigger] later.before@[i]) is Some
            && earlier.before@[i] is None implies before_indices.contains(i as usize)
        && after_indices.contains(later.before@[i]->0) && before.key_at(i, by) == after.key_at(
        later.before@[i]->0 as int,
        by,
    ) by {
        let k = choose|k: int|
            0 <= k < matches.len() && before_indices[(#[trigger] matches[k]).before as int] == i
                && after_indices[matches[k].after as int] == later.before@[i]->0;
        let edge = matches[k];
        assert(before_indices[edge.before as int] == i as usize);
        assert(after_indices[edge.after as int] == later.before@[i]->0);
        assert(listed_keys(before, before_indices, by)[edge.before as int] == listed_keys(
            after,
            after_indices,
            by,
        )[edge.after as int]);
    }
}

/// Claiming every edge between equal keys uses the keys up.
proof fn lemma_step_exhausted(
    before: Side<'_>,
    after: Side<'_>,
    before_indices: Seq<usize>,
    after_indices: Seq<usize>,
    by: ContextKey,
    matches: Seq<OrderedMatch>,
    partners: Partners,
)
    requires
        mutual(partners.before@, partners.after@),
        all_claimed(partners, before_indices, after_indices, matches),
        indices_below(before_indices, partners.before@.len() as int),
        keys_agree(
            matches,
            listed_keys(before, before_indices, by),
            listed_keys(after, after_indices, by),
        ),
        keys_exhausted(
            matches,
            listed_keys(before, before_indices, by),
            listed_keys(after, after_indices, by),
        ),
    ensures
        step_exhausted(before, after, before_indices, after_indices, by, partners),
{
    let left = listed_keys(before, before_indices, by);
    let right = listed_keys(after, after_indices, by);
    assert forall|i: usize, j: usize| #[trigger]
        before_indices.contains(i) && #[trigger] after_indices.contains(j) && before.key_at(
            i as int,
            by,
        ) == after.key_at(
            j as int,
            by,
        ) implies partners.before@[i as int] is Some || partners.after@[j as int] is Some by {
        let x = choose|x: int| 0 <= x < before_indices.len() && before_indices[x] == i;
        let y = choose|y: int| 0 <= y < after_indices.len() && after_indices[y] == j;
        assert(left[x] == right[y]);
        assert(has_end(matches, x, y));
        lemma_end_is_paired(partners, before_indices, after_indices, matches, x, y);
    }
}

/// Claiming every edge of a noncrossing matching leaves over only crossed pairs.
proof fn lemma_step_crossed(
    before: Side<'_>,
    after: Side<'_>,
    before_indices: Seq<usize>,
    after_indices: Seq<usize>,
    by: ContextKey,
    matches: Seq<OrderedMatch>,
    partners: Partners,
)
    requires
        mutual(partners.before@, partners.after@),
        all_claimed(partners, before_indices, after_indices, matches),
        indices_below(before_indices, partners.before@.len() as int),
        spread(before_indices),
        spread(after_indices),
        keys_agree(
            matches,
            listed_keys(before, before_indices, by),
            listed_keys(after, after_indices, by),
        ),
        keys_blocked(
            matches,
            listed_keys(before, before_indices, by),
            listed_keys(after, after_indices, by),
        ),
    ensures
        step_crossed(before, after, before_indices, after_indices, by, partners),
{
    let left = listed_keys(before, before_indices, by);
    let right = listed_keys(after, after_indices, by);
    assert forall|i: usize, j: usize| #[trigger]
        before_indices.contains(i) && #[trigger] after_indices.contains(j) && before.key_at(
            i as int,
            by,
        ) == after.key_at(
            j as int,
            by,
        ) implies partners.before@[i as int] is Some || partners.after@[j as int] is Some
        || is_crossed(partners, i as int, j as int) by {
        let x = choose|x: int| 0 <= x < before_indices.len() && before_indices[x] == i;
        let y = choose|y: int| 0 <= y < after_indices.len() && after_indices[y] == j;
        assert(left[x] == right[y]);
        assert(is_blocked(matches, x, y));
        lemma_blocked_is_crossed(partners, before_indices, after_indices, matches, x, y);
    }
}

/// Only listed children gained partners.
spec fn claims_only(
    later: Partners,
    earlier: Partners,
    before_indices: Seq<usize>,
    after_indices: Seq<usize>,
) -> bool {
    &&& forall|i: int|
        0 <= i < later.before@.len() && (#[trigger] later.before@[i]) is Some
            && earlier.before@[i] is None ==> before_indices.contains(i as usize)
    &&& forall|j: int|
        0 <= j < later.after@.len() && (#[trigger] later.after@[j]) is Some
            && earlier.after@[j] is None ==> after_indices.contains(j as usize)
}

proof fn lemma_claims_only(
    later: Partners,
    earlier: Partners,
    before_indices: Seq<usize>,
    after_indices: Seq<usize>,
    matches: Seq<OrderedMatch>,
)
    requires
        mutual(later.before@, later.after@),
        mutual(earlier.before@, earlier.after@),
        later.grows(earlier),
        later.before@.len() <= usize::MAX,
        later.after@.len() <= usize::MAX,
        forall|k: int|
            0 <= k < matches.len() ==> (#[trigger] matches[k]).before < before_indices.len()
                && matches[k].after < after_indices.len(),
        new_pairs_from(later, earlier, before_indices, after_indices, matches),
    ensures
        claims_only(later, earlier, before_indices, after_indices),
{
    assert forall|i: int|
        0 <= i < later.before@.len() && (#[trigger] later.before@[i]) is Some
            && earlier.before@[i] is None implies before_indices.contains(i as usize)
        && after_indices.contains(later.before@[i]->0) by {
        let k = choose|k: int|
            0 <= k < matches.len() && before_indices[(#[trigger] matches[k]).before as int] == i
                && after_indices[matches[k].after as int] == later.before@[i]->0;
        assert(before_indices[matches[k].before as int] == i as usize);
        assert(after_indices[matches[k].after as int] == later.before@[i]->0);
    }
    assert forall|j: int|
        0 <= j < later.after@.len() && (#[trigger] later.after@[j]) is Some
            && earlier.after@[j] is None implies after_indices.contains(j as usize) by {
        let i = later.after@[j]->0 as int;
        assert(later.before@[i] == Some(j as usize));
        if earlier.before@[i] is Some {
            assert(later.before@[i] == earlier.before@[i]);
            assert(earlier.after@[j] is Some);
        }
    }
}

/// Listed children are listed with their keys.
proof fn lemma_lists_listed(
    side: Side<'_>,
    indices: Seq<usize>,
    by: ContextKey,
    keys: Seq<Seq<usize>>,
)
    requires
        spread(indices),
        indices_below(indices, side.nodes@.len() as int),
        keys == listed_keys(side, indices, by),
    ensures
        lists_keyed(indices, keys, listed_key(side, indices, by), side.nodes@.len() as int),
{
    let model = listed_key(side, indices, by);
    assert forall|k: int| 0 <= k < indices.len() implies model((#[trigger] indices[k]) as int)
        == Some(keys[k]) by {
        assert(indices.contains(indices[k]));
    }
}

/// Claim the children that equal keys select.
fn claim_step(
    before: &Side<'_>,
    after: &Side<'_>,
    before_indices: &Vec<usize>,
    after_indices: &Vec<usize>,
    by: ContextKey,
    in_order: bool,
    partners: &mut Partners,
)
    requires
        before.wf(),
        after.wf(),
        child_pairs_ok(*before, *after, *old(partners)),
        indices_below(before_indices@, before.nodes@.len() as int),
        indices_below(after_indices@, after.nodes@.len() as int),
        spread(before_indices@),
        spread(after_indices@),
        free_at(old(partners).before@, before_indices@),
        free_at(old(partners).after@, after_indices@),
        forall|k: int|
            0 <= k < before_indices@.len() ==> !before.is_reserved(
                (#[trigger] before_indices@[k]) as int,
            ),
        forall|k: int|
            0 <= k < after_indices@.len() ==> !after.is_reserved(
                (#[trigger] after_indices@[k]) as int,
            ),
    ensures
        child_pairs_ok(*before, *after, *final(partners)),
        final(partners).grows(*old(partners)),
        claims_only(*final(partners), *old(partners), before_indices@, after_indices@),
        from_step(
            *before,
            *after,
            before_indices@,
            after_indices@,
            by,
            *final(partners),
            *old(partners),
        ),
        !in_order ==> step_exhausted(
            *before,
            *after,
            before_indices@,
            after_indices@,
            by,
            *final(partners),
        ),
        in_order ==> step_crossed(
            *before,
            *after,
            before_indices@,
            after_indices@,
            by,
            *final(partners),
        ),
        is_child_step(
            *before,
            *after,
            before_indices@,
            after_indices@,
            by,
            in_order,
            *old(partners),
            *final(partners),
        ),
{
    let ghost start = *partners;
    let before_keys = step_keys(before, before_indices, by);
    let after_keys = step_keys(after, after_indices, by);
    let ghost left = key_views(before_keys@);
    let ghost right = key_views(after_keys@);
    proof {
        assert(left =~= listed_keys(*before, before_indices@, by));
        assert(right =~= listed_keys(*after, after_indices@, by));
    }
    let matches = if in_order {
        ordered_key_matches(before_keys, after_keys)
    } else {
        unordered_key_matches(before_keys, after_keys)
    };
    proof {
        if in_order {
            assert(one_to_one(matches@)) by {
                lemma_monotone_one_to_one(matches@);
            }
        }
    }
    partners.claim_all(before_indices, after_indices, &matches);
    proof {
        lemma_keyed_pairs_ok(
            *before,
            *after,
            before_indices@,
            after_indices@,
            by,
            matches@,
            *partners,
            start,
        );
        assert(partners.before.len() <= usize::MAX && partners.after.len() <= usize::MAX);
        lemma_claims_only(*partners, start, before_indices@, after_indices@, matches@);
        if in_order {
            lemma_step_crossed(
                *before,
                *after,
                before_indices@,
                after_indices@,
                by,
                matches@,
                *partners,
            );
        } else {
            assert(before_indices.len() <= usize::MAX && after_indices.len() <= usize::MAX);
            lemma_lists_listed(*before, before_indices@, by, left);
            lemma_lists_listed(*after, after_indices@, by, right);
            lemma_keyed_pass(
                *partners,
                start,
                before_indices@,
                after_indices@,
                left,
                right,
                matches@,
                listed_key(*before, before_indices@, by),
                listed_key(*after, after_indices@, by),
            );
            lemma_step_exhausted(
                *before,
                *after,
                before_indices@,
                after_indices@,
                by,
                matches@,
                *partners,
            );
        }
    }
}

/// A node inside the child has one of the kinds and names.
pub open spec fn holds_foreign(side: Side<'_>, index: int, opposite: Seq<(usize, usize)>) -> bool {
    exists|l: int|
        0 <= l < opposite.len() && names_inside(
            *side.facts,
            side.nodes@[index] as int,
            side.node_at(index).subtree_end as int,
            #[trigger] opposite[l],
        )
}

/// One more listed child is kept or not, and the earlier ones as before.
proof fn lemma_kept_step(
    indices: Seq<usize>,
    index: int,
    earlier: Seq<usize>,
    kept: Seq<usize>,
    keeps: bool,
)
    requires
        0 <= index < indices.len(),
        spread(indices),
        forall|k: int|
            0 <= k < earlier.len() ==> indices.take(index).contains(#[trigger] earlier[k]),
        kept == if keeps {
            earlier.push(indices[index])
        } else {
            earlier
        },
    ensures
        forall|k: int|
            0 <= k < index ==> (kept.contains(#[trigger] indices[k]) <==> earlier.contains(
                indices[k],
            )),
        kept.contains(indices[index]) <==> keeps,
{
    assert forall|k: int| 0 <= k < index implies (kept.contains(#[trigger] indices[k])
        <==> earlier.contains(indices[k])) by {
        if earlier.contains(indices[k]) {
            let m = choose|m: int| 0 <= m < earlier.len() && earlier[m] == indices[k];
            assert(kept[m] == indices[k]);
        }
        if kept.contains(indices[k]) {
            let m = choose|m: int| 0 <= m < kept.len() && kept[m] == indices[k];
            if m < earlier.len() {
                assert(earlier[m] == indices[k]);
            } else {
                assert(indices[k] != indices[index]);
            }
        }
    }
    if keeps {
        assert(kept[earlier.len() as int] == indices[index]);
    } else if kept.contains(indices[index]) {
        let m = choose|m: int| 0 <= m < kept.len() && kept[m] == indices[index];
        assert(indices.take(index).contains(earlier[m]));
        let k = choose|k: int| 0 <= k < index && indices.take(index)[k] == earlier[m];
        assert(indices[k] != indices[index]);
    }
}

/// Keep the listed children whose inner names do not belong to the other side.
fn without_foreign_names(
    side: &Side<'_>,
    indices: &Vec<usize>,
    opposite: &Vec<(usize, usize)>,
    spare_own: bool,
) -> (kept: Vec<usize>)
    requires
        side.wf(),
        indices_below(indices@, side.nodes@.len() as int),
        spread(indices@),
    ensures
        indices_below(kept@, side.nodes@.len() as int),
        spread(kept@),
        forall|k: int| 0 <= k < kept@.len() ==> indices@.contains(#[trigger] kept@[k]),
        forall|k: int|
            0 <= k < indices@.len() && !holds_foreign(
                *side,
                (#[trigger] indices@[k]) as int,
                opposite@,
            ) ==> kept@.contains(indices@[k]),
        forall|k: int|
            0 <= k < indices@.len() ==> (kept@.contains(#[trigger] indices@[k]) <==> !shares_name(
                *side,
                indices@[k] as int,
                spare_own,
                opposite@,
            )),
{
    let mut kept: Vec<usize> = Vec::new();
    let mut index: usize = 0;
    while index < indices.len()
        invariant
            side.wf(),
            index <= indices@.len(),
            indices_below(indices@, side.nodes@.len() as int),
            spread(indices@),
            indices_below(kept@, side.nodes@.len() as int),
            spread(kept@),
            forall|k: int|
                0 <= k < index ==> (kept@.contains(#[trigger] indices@[k]) <==> !shares_name(
                    *side,
                    indices@[k] as int,
                    spare_own,
                    opposite@,
                )),
            forall|k: int|
                0 <= k < kept@.len() ==> indices@.take(index as int).contains(#[trigger] kept@[k]),
            forall|k: int|
                0 <= k < index && !holds_foreign(
                    *side,
                    (#[trigger] indices@[k]) as int,
                    opposite@,
                ) ==> kept@.contains(indices@[k]),
        decreases indices@.len() - index,
    {
        let child = indices[index];
        let id = side.nodes[child];
        let inner = descendant_identities(side.tree, side.facts, id);
        let own = match side.facts.symbols[id].identity {
            Some(identity) => if spare_own {
                Some((side.facts.symbols[id].kind, identity))
            } else {
                None
            },
            None => None,
        };
        let ghost earlier = kept@;
        let shared = shares_pair(&inner, opposite, own);
        if !shared {
            kept.push(child);
        } else {
            proof {
                let k = choose|k: int|
                    0 <= k < inner@.len() && Some(#[trigger] inner@[k]) != own
                        && opposite@.contains(inner@[k]);
                let l = choose|l: int| 0 <= l < opposite@.len() && opposite@[l] == inner@[k];
                assert(names_inside(
                    *side.facts,
                    id as int,
                    side.node_at(child as int).subtree_end as int,
                    opposite@[l],
                ));
            }
        }
        proof {
            assert(inner@ =~= inner_names(*side, child as int));
            assert forall|name: (usize, usize)| Some(name) != own <==> !is_own_name(
                *side,
                child as int,
                spare_own,
                name,
            ) by {}
            assert(shared <==> shares_name(*side, child as int, spare_own, opposite@)) by {
                if shared {
                    let k = choose|k: int|
                        0 <= k < inner@.len() && Some(#[trigger] inner@[k]) != own
                            && opposite@.contains(inner@[k]);
                    assert(!is_own_name(
                        *side,
                        child as int,
                        spare_own,
                        inner_names(*side, child as int)[k],
                    ));
                }
                if shares_name(*side, child as int, spare_own, opposite@) {
                    let k = choose|k: int|
                        0 <= k < inner_names(*side, child as int).len() && !is_own_name(
                            *side,
                            child as int,
                            spare_own,
                            #[trigger] inner_names(*side, child as int)[k],
                        ) && opposite@.contains(inner_names(*side, child as int)[k]);
                    assert(Some(inner@[k]) != own);
                }
            }
            lemma_kept_step(indices@, index as int, earlier, kept@, !shared);
            lemma_thinned(indices@, index as int, earlier, kept@, !shared);
            assert forall|k: int|
                0 <= k < index + 1 && !holds_foreign(
                    *side,
                    (#[trigger] indices@[k]) as int,
                    opposite@,
                ) implies kept@.contains(indices@[k]) by {
                if k < index {
                    let m = choose|m: int| 0 <= m < earlier.len() && earlier[m] == indices@[k];
                    assert(kept@[m] == indices@[k]);
                } else {
                    assert(kept@[kept@.len() - 1] == indices@[k]);
                }
            }
        }
        index += 1;
    }
    assert(indices@.take(indices@.len() as int) =~= indices@);
    kept
}

/// Keeping or dropping the next listed index keeps the list in order.
proof fn lemma_thinned(
    indices: Seq<usize>,
    index: int,
    earlier: Seq<usize>,
    kept: Seq<usize>,
    added: bool,
)
    requires
        0 <= index < indices.len(),
        spread(indices),
        spread(earlier),
        forall|k: int| 0 <= k < earlier.len() ==> indices.take(index).contains(#[trigger] earlier[k]),
        kept == if added {
            earlier.push(indices[index])
        } else {
            earlier
        },
    ensures
        spread(kept),
        forall|k: int| 0 <= k < kept.len() ==> indices.take(index + 1).contains(#[trigger] kept[k]),
{
    assert forall|k: int| 0 <= k < earlier.len() implies (#[trigger] earlier[k]) < indices[index]
        && indices.take(index + 1).contains(earlier[k]) by {
        let m = choose|m: int| 0 <= m < index && indices.take(index)[m] == earlier[k];
        assert(indices[m] < indices[index]);
        assert(indices.take(index + 1)[m] == earlier[k]);
    }
    if added {
        assert(indices.take(index + 1)[index] == indices[index]);
    }
}

/// Only children with an echo of the other side inside are masked.
pub open spec fn masks_echo(side: Side<'_>, other: Side<'_>, masks: Seq<bool>) -> bool {
    forall|i: int| 0 <= i < masks.len() && #[trigger] masks[i] ==> side.echoes(other, i)
}

proof fn lemma_masks_echo(side: Side<'_>, other: Side<'_>, targets: Targets, masks: Seq<bool>)
    requires
        targets.drawn_from(other),
        forall|i: int|
            0 <= i < masks.len() && #[trigger] masks[i] ==> wraps_target(
                side,
                targets,
                side.nodes@[i] as int,
            ),
    ensures
        masks_echo(side, other, masks),
{
    assert forall|i: int| 0 <= i < masks.len() && #[trigger] masks[i] implies side.echoes(
        other,
        i,
    ) by {
        let outer = side.nodes@[i] as int;
        let at = choose|at: int|
            outer < at < side.tree.nodes@[outer].subtree_end && targets.first@.contains_key(
                (#[trigger] side.facts.prints@[at]).full,
            );
        let print = side.facts.prints@[at].full;
        assert(is_content(other, print));
        let k = choose|k: int| 0 <= k < other.nodes@.len() && #[trigger] other.full_at(k) == print;
        assert(side.repeats(other, at, k));
    }
}

/// A name of the other side inside a child is an echo.
proof fn lemma_foreign_echoes(
    side: Side<'_>,
    other: Side<'_>,
    index: int,
    opposite: Seq<(usize, usize)>,
)
    requires
        holds_foreign(side, index, opposite),
        forall|k: int| 0 <= k < opposite.len() ==> is_name(other, #[trigger] opposite[k]),
    ensures
        side.echoes(other, index),
{
    let l = choose|l: int|
        0 <= l < opposite.len() && names_inside(
            *side.facts,
            side.nodes@[index] as int,
            side.node_at(index).subtree_end as int,
            #[trigger] opposite[l],
        );
    let at = choose|at: int|
        side.nodes@[index] < at < side.node_at(index).subtree_end && (
        #[trigger] side.facts.symbols@[at]).kind == opposite[l].0
            && side.facts.symbols@[at].identity == Some(opposite[l].1);
    assert(is_name(other, opposite[l]));
    let k = choose|k: int|
        0 <= k < other.nodes@.len() && #[trigger] other.is_named_at(k) && other.name_at(k)
            == opposite[l];
    assert(side.repeats(other, at, k));
}

/// Equal keys by role and name come from children of one role.
proof fn lemma_key_role(before: Side<'_>, after: Side<'_>, i: int, j: int)
    requires
        before.is_named_at(i) && after.is_named_at(j) && before.key_at(i, ContextKey::RoleName)
            == after.key_at(j, ContextKey::RoleName) || before.key_at(i, ContextKey::Role)
            == after.key_at(j, ContextKey::Role),
    ensures
        before.is_owner_at(i) == after.is_owner_at(j),
{
    if before.is_named_at(i) && after.is_named_at(j) && before.key_at(i, ContextKey::RoleName)
        == after.key_at(j, ContextKey::RoleName) {
        assert(before.key_at(i, ContextKey::RoleName)[2] == after.key_at(
            j,
            ContextKey::RoleName,
        )[2]);
    } else {
        assert(before.key_at(i, ContextKey::Role)[2] == after.key_at(j, ContextKey::Role)[2]);
    }
}

/// What is used up stays used up.
proof fn lemma_exhausted_grows(
    before: Side<'_>,
    after: Side<'_>,
    later: Partners,
    earlier: Partners,
)
    requires
        child_pairs_ok(before, after, earlier),
        later.grows(earlier),
    ensures
        names_exhausted(before, after, earlier) ==> names_exhausted(before, after, later),
        owners_exhausted(before, after, earlier) ==> owners_exhausted(before, after, later),
        shapes_exhausted(before, after, earlier) ==> shapes_exhausted(before, after, later),
{
    assert forall|i: int, j: int|
        0 <= i < before.nodes@.len() && 0 <= j < after.nodes@.len() && (
        #[trigger] earlier.before@[i] is Some || #[trigger] earlier.after@[j] is Some || is_crossed(
            earlier,
            i,
            j,
        )) implies later.before@[i] is Some || later.after@[j] is Some || is_crossed(
        later,
        i,
        j,
    ) && is_crossed(earlier, i, j) by {
        if is_crossed(earlier, i, j) && earlier.before@[i] is None && earlier.after@[j] is None {
            let k = choose|k: int|
                0 <= k < earlier.before@.len() && ((#[trigger] earlier.before@[k]) matches Some(l)
                    && (k < i && l > j || k > i && l < j));
            assert(later.before@[k] == earlier.before@[k]);
        }
    }
    if names_exhausted(before, after, earlier) {
        assert forall|i: int, j: int| #[trigger]
            before.is_plain(after, i) && #[trigger] after.is_plain(before, j) && before.is_named_at(
                i,
            ) && after.is_named_at(j) && before.key_at(i, ContextKey::RoleName) == after.key_at(
                j,
                ContextKey::RoleName,
            ) implies later.before@[i] is Some || later.after@[j] is Some by {
            assert(earlier.before@[i] is Some || earlier.after@[j] is Some);
        }
    }
    if owners_exhausted(before, after, earlier) {
        assert forall|i: int, j: int| #[trigger]
            before.is_plain(after, i) && #[trigger] after.is_plain(before, j)
                && !before.is_named_at(i) && !after.is_named_at(j) && before.is_owner_at(i)
                && before.key_at(i, ContextKey::Role) == after.key_at(
                j,
                ContextKey::Role,
            ) implies later.before@[i] is Some || later.after@[j] is Some by {
            assert(earlier.before@[i] is Some || earlier.after@[j] is Some);
        }
    }
    if shapes_exhausted(before, after, earlier) {
        assert forall|i: int, j: int| #[trigger]
            before.is_plain(after, i) && #[trigger] after.is_plain(before, j)
                && !before.is_named_at(i) && !after.is_named_at(j) && !before.is_owner_at(i)
                && !after.is_owner_at(j) && before.shape_at(i) == after.shape_at(
                j,
            ) implies later.before@[i] is Some || later.after@[j] is Some || is_crossed(
            later,
            i,
            j,
        ) by {
            assert(earlier.before@[i] is Some || earlier.after@[j] is Some || is_crossed(
                earlier,
                i,
                j,
            ));
        }
    }
}

/// A part of the kept named children is alike.
proof fn lemma_kept_part(
    side: Side<'_>,
    partner: Seq<Option<usize>>,
    masks: Seq<bool>,
    named: Seq<usize>,
    kept: Seq<usize>,
    chosen: Seq<usize>,
)
    requires
        lists_step(side, partner, masks, Step::AllNamed, named, side.nodes@.len() as int),
        forall|k: int| 0 <= k < kept.len() ==> named.contains(#[trigger] kept[k]),
        forall|k: int| 0 <= k < chosen.len() ==> kept.contains(#[trigger] chosen[k]),
    ensures
        are_alike(side, chosen, false, true),
{
    assert forall|k: int| 0 <= k < chosen.len() implies named.contains(#[trigger] chosen[k]) by {
        let m = choose|m: int| 0 <= m < kept.len() && kept[m] == chosen[k];
        assert(named.contains(kept[m]));
    }
    lemma_alike(side, partner, masks, Step::AllNamed, named, chosen);
}

/// Names of listed free named children are the names of all.
proof fn lemma_free_names(
    other: Side<'_>,
    other_partner: Seq<Option<usize>>,
    other_masks: Seq<bool>,
    other_named: Seq<usize>,
    names: Seq<(usize, usize)>,
)
    requires
        other.nodes@.len() <= usize::MAX,
        lists_step(
            other,
            other_partner,
            other_masks,
            Step::AllNamed,
            other_named,
            other.nodes@.len() as int,
        ),
        forall|k: int| 0 <= k < names.len() ==> is_listed_name(other, other_named, #[trigger] names[k]),
        forall|k: int|
            0 <= k < other_named.len() && other.is_named_at((#[trigger] other_named[k]) as int)
                ==> names.contains(other.name_at(other_named[k] as int)),
    ensures
        are_free_names(other, other_partner, other_masks, names),
{
    assert forall|name: (usize, usize)| #[trigger] names.contains(name) <==> exists|k: int|
        0 <= k < other.nodes@.len() && #[trigger] in_step(
            other,
            other_partner,
            other_masks,
            Step::AllNamed,
            k,
        ) && other.name_at(k) == name by {
        if names.contains(name) {
            let l = choose|l: int| 0 <= l < names.len() && names[l] == name;
            assert(is_listed_name(other, other_named, names[l]));
            let y = choose|y: int|
                0 <= y < other_named.len() && other.name_at((#[trigger] other_named[y]) as int)
                    == names[l];
            assert(in_step(
                other,
                other_partner,
                other_masks,
                Step::AllNamed,
                other_named[y] as int,
            ));
        }
        if exists|k: int|
            0 <= k < other.nodes@.len() && #[trigger] in_step(
                other,
                other_partner,
                other_masks,
                Step::AllNamed,
                k,
            ) && other.name_at(k) == name {
            let k = choose|k: int|
                0 <= k < other.nodes@.len() && #[trigger] in_step(
                    other,
                    other_partner,
                    other_masks,
                    Step::AllNamed,
                    k,
                ) && other.name_at(k) == name;
            assert(other_named.contains(k as usize));
            let y = choose|y: int| 0 <= y < other_named.len() && other_named[y] == k as usize;
            assert(names.contains(other.name_at(other_named[y] as int)));
        }
    }
}

/// Children kept of the named ones keep their names.
proof fn lemma_keeps_names(
    side: Side<'_>,
    other: Side<'_>,
    partner: Seq<Option<usize>>,
    other_partner: Seq<Option<usize>>,
    masks: Seq<bool>,
    other_masks: Seq<bool>,
    named: Seq<usize>,
    other_named: Seq<usize>,
    names: Seq<(usize, usize)>,
    kept: Seq<usize>,
)
    requires
        side.nodes@.len() <= usize::MAX,
        lists_step(side, partner, masks, Step::AllNamed, named, side.nodes@.len() as int),
        lists_step(
            other,
            other_partner,
            other_masks,
            Step::AllNamed,
            other_named,
            other.nodes@.len() as int,
        ),
        forall|k: int| 0 <= k < names.len() ==> is_listed_name(other, other_named, #[trigger] names[k]),
        spread(kept),
        forall|k: int| 0 <= k < kept.len() ==> named.contains(#[trigger] kept[k]),
        forall|k: int|
            0 <= k < named.len() && !holds_foreign(side, (#[trigger] named[k]) as int, names)
                ==> kept.contains(named[k]),
        forall|k: int|
            0 <= k < other_named.len() && other.is_named_at((#[trigger] other_named[k]) as int)
                ==> names.contains(other.name_at(other_named[k] as int)),
        forall|k: int|
            0 <= k < named.len() ==> (kept.contains(#[trigger] named[k]) <==> !shares_name(
                side,
                named[k] as int,
                true,
                names,
            )),
        other.nodes@.len() <= usize::MAX,
    ensures
        keeps_names(side, other, partner, other_partner, masks, other_masks, kept),
{
    assert forall|k: int| 0 <= k < kept.len() implies (#[trigger] kept[k]) < side.nodes@.len()
        && in_step(side, partner, masks, Step::AllNamed, kept[k] as int) by {
        assert(named.contains(kept[k]));
        let x = choose|x: int| 0 <= x < named.len() && named[x] == kept[k];
        assert(in_step(side, partner, masks, Step::AllNamed, named[x] as int));
    }
    lemma_free_names(other, other_partner, other_masks, other_named, names);
    assert forall|i: int|
        0 <= i < side.nodes@.len() && #[trigger] in_step(
            side,
            partner,
            masks,
            Step::AllNamed,
            i,
        ) implies (kept.contains(i as usize) <==> !shares_name(side, i, true, names)) by {
        assert(named.contains(i as usize));
        let x = choose|x: int| 0 <= x < named.len() && named[x] == i as usize;
        assert(kept.contains(named[x]) <==> !shares_name(side, named[x] as int, true, names));
    }
    assert forall|i: int|
        0 <= i < side.nodes@.len() && #[trigger] in_step(side, partner, masks, Step::AllNamed, i)
            && !side.echoes_name(other, other_partner, other_masks, i) implies kept.contains(
        i as usize,
    ) by {
        assert(named.contains(i as usize));
        let x = choose|x: int| 0 <= x < named.len() && named[x] == i as usize;
        if holds_foreign(side, i, names) {
            let l = choose|l: int|
                0 <= l < names.len() && names_inside(
                    *side.facts,
                    side.nodes@[i] as int,
                    side.node_at(i).subtree_end as int,
                    #[trigger] names[l],
                );
            assert(is_listed_name(other, other_named, names[l]));
            let y = choose|y: int|
                0 <= y < other_named.len() && other.name_at((#[trigger] other_named[y]) as int)
                    == names[l];
            assert(in_step(
                other,
                other_partner,
                other_masks,
                Step::AllNamed,
                other_named[y] as int,
            ));
        }
        assert(kept.contains(named[x]));
    }
}

/// A split by role chooses by role.
proof fn lemma_of_role(side: Side<'_>, kept: Seq<usize>, chosen: Seq<usize>, owners: bool)
    requires
        spread(chosen),
        forall|k: int|
            0 <= k < chosen.len() ==> kept.contains(#[trigger] chosen[k]) && side.is_owner_at(
                chosen[k] as int,
            ) == owners,
        forall|k: int|
            0 <= k < kept.len() && side.is_owner_at((#[trigger] kept[k]) as int) == owners
                ==> chosen.contains(kept[k]),
    ensures
        are_of_role(side, kept, chosen, owners),
{
    assert forall|i: usize| #[trigger] chosen.contains(i) <==> kept.contains(i)
        && side.is_owner_at(i as int) == owners by {
        if chosen.contains(i) {
            let k = choose|k: int| 0 <= k < chosen.len() && chosen[k] == i;
            assert(kept.contains(chosen[k]));
        }
        if kept.contains(i) && side.is_owner_at(i as int) == owners {
            let k = choose|k: int| 0 <= k < kept.len() && kept[k] == i;
            assert(chosen.contains(kept[k]));
        }
    }
}

/// Match named children: owners first, then ordinary syntax, by name and role.
fn match_named(
    before: &Side<'_>,
    after: &Side<'_>,
    before_masks: &Vec<bool>,
    after_masks: &Vec<bool>,
    partners: &mut Partners,
)
    requires
        before.wf(),
        after.wf(),
        child_pairs_ok(*before, *after, *old(partners)),
        before_masks@.len() == before.nodes@.len(),
        after_masks@.len() == after.nodes@.len(),
        masks_echo(*before, *after, before_masks@),
        masks_echo(*after, *before, after_masks@),
    ensures
        child_pairs_ok(*before, *after, *final(partners)),
        final(partners).grows(*old(partners)),
        names_exhausted(*before, *after, *final(partners)),
        names_passed(
            *before,
            *after,
            before_masks@,
            after_masks@,
            *old(partners),
            *final(partners),
        ),
        forall|renames: bool| #[trigger]
            pairs_kept(*before, *after, *old(partners), renames) ==> pairs_kept(
                *before,
                *after,
                *final(partners),
                renames,
            ),
{
    let ghost start = *partners;
    let before_named = step_children(before, &partners.before, before_masks, Step::AllNamed);
    let after_named = step_children(after, &partners.after, after_masks, Step::AllNamed);
    let before_keys = identity_keys(before, &before_named);
    let after_keys = identity_keys(after, &after_named);
    let before_kept = without_foreign_names(before, &before_named, &after_keys, true);
    let after_kept = without_foreign_names(after, &after_named, &before_keys, true);
    let before_owners = split_by_role(before, &before_kept, false);
    let after_owners = split_by_role(after, &after_kept, false);
    claim_step(
        before,
        after,
        &before_owners,
        &after_owners,
        ContextKey::RoleName,
        false,
        partners,
    );
    let ghost middle = *partners;
    let before_syntax = split_by_role(before, &before_kept, true);
    let after_syntax = split_by_role(after, &after_kept, true);
    claim_step(
        before,
        after,
        &before_syntax,
        &after_syntax,
        ContextKey::RoleName,
        false,
        partners,
    );
    proof {
        assert(before.nodes.len() <= usize::MAX && after.nodes.len() <= usize::MAX);
        lemma_keeps_names(
            *before,
            *after,
            start.before@,
            start.after@,
            before_masks@,
            after_masks@,
            before_named@,
            after_named@,
            after_keys@,
            before_kept@,
        );
        lemma_keeps_names(
            *after,
            *before,
            start.after@,
            start.before@,
            after_masks@,
            before_masks@,
            after_named@,
            before_named@,
            before_keys@,
            after_kept@,
        );
        lemma_of_role(*before, before_kept@, before_owners@, true);
        lemma_of_role(*after, after_kept@, after_owners@, true);
        lemma_of_role(*before, before_kept@, before_syntax@, false);
        lemma_of_role(*after, after_kept@, after_syntax@, false);
        assert(is_named_pass(
            *before,
            *after,
            before_masks@,
            after_masks@,
            before_kept@,
            after_kept@,
            before_owners@,
            after_owners@,
            before_syntax@,
            after_syntax@,
            start,
            middle,
            *partners,
        ));
        lemma_kept_part(
            *before,
            start.before@,
            before_masks@,
            before_named@,
            before_kept@,
            before_owners@,
        );
        lemma_kept_part(
            *before,
            start.before@,
            before_masks@,
            before_named@,
            before_kept@,
            before_syntax@,
        );
        lemma_kept_part(
            *after,
            start.after@,
            after_masks@,
            after_named@,
            after_kept@,
            after_owners@,
        );
        lemma_kept_part(
            *after,
            start.after@,
            after_masks@,
            after_named@,
            after_kept@,
            after_syntax@,
        );
        lemma_kept_by_step(
            *before,
            *after,
            before_owners@,
            after_owners@,
            ContextKey::RoleName,
            middle,
            start,
            false,
            true,
        );
        lemma_kept_by_step(
            *before,
            *after,
            before_syntax@,
            after_syntax@,
            ContextKey::RoleName,
            *partners,
            middle,
            false,
            true,
        );
        lemma_grows_chain(*partners, middle, start);
        assert(before.nodes.len() <= usize::MAX && after.nodes.len() <= usize::MAX);
        assert forall|i: int, j: int| #[trigger]
            before.is_plain(*after, i) && #[trigger] after.is_plain(*before, j)
                && before.is_named_at(i) && after.is_named_at(j) && before.key_at(
                i,
                ContextKey::RoleName,
            ) == after.key_at(
                j,
                ContextKey::RoleName,
            ) implies partners.before@[i] is Some || partners.after@[j] is Some by {
            if partners.before@[i] is None && partners.after@[j] is None {
                assert(start.before@[i] is None && start.after@[j] is None);
                assert(middle.before@[i] is None && middle.after@[j] is None);
                assert(in_step(*before, start.before@, before_masks@, Step::AllNamed, i));
                assert(in_step(*after, start.after@, after_masks@, Step::AllNamed, j));
                let x = choose|x: int| 0 <= x < before_named@.len() && before_named@[x] == i as usize;
                let y = choose|y: int| 0 <= y < after_named@.len() && after_named@[y] == j as usize;
                if holds_foreign(*before, i, after_keys@) {
                    lemma_foreign_echoes(*before, *after, i, after_keys@);
                }
                if holds_foreign(*after, j, before_keys@) {
                    lemma_foreign_echoes(*after, *before, j, before_keys@);
                }
                assert(before_kept@.contains(before_named@[x]));
                assert(after_kept@.contains(after_named@[y]));
                let u = choose|u: int| 0 <= u < before_kept@.len() && before_kept@[u] == i as usize;
                let v = choose|v: int| 0 <= v < after_kept@.len() && after_kept@[v] == j as usize;
                lemma_key_role(*before, *after, i, j);
                if before.is_owner_at(i) {
                    assert(before_owners@.contains(before_kept@[u]));
                    assert(after_owners@.contains(after_kept@[v]));
                    assert(before_owners@.contains(i as usize) && after_owners@.contains(
                        j as usize,
                    ));
                } else {
                    assert(before_syntax@.contains(before_kept@[u]));
                    assert(after_syntax@.contains(after_kept@[v]));
                    assert(before_syntax@.contains(i as usize) && after_syntax@.contains(
                        j as usize,
                    ));
                }
            }
        }
    }
}

/// Growth of partners is transitive.
pub proof fn lemma_grows_chain(later: Partners, middle: Partners, earlier: Partners)
    requires
        later.grows(middle),
        middle.grows(earlier),
    ensures
        later.grows(earlier),
{
    assert forall|i: int|
        0 <= i < earlier.before@.len() && (
        #[trigger] earlier.before@[i]) is Some implies later.before@[i] == earlier.before@[i] by {
        assert(middle.before@[i] is Some);
    }
    assert forall|i: int|
        0 <= i < earlier.after@.len() && (
        #[trigger] earlier.after@[i]) is Some implies later.after@[i] == earlier.after@[i] by {
        assert(middle.after@[i] is Some);
    }
}

/// The kept children that are ordinary syntax, or those that are owners.
fn split_by_role(
    side: &Side<'_>,
    kept: &Vec<usize>,
    ordered: bool,
) -> (chosen: Vec<usize>)
    requires
        side.wf(),
        indices_below(kept@, side.nodes@.len() as int),
        spread(kept@),
    ensures
        indices_below(chosen@, side.nodes@.len() as int),
        spread(chosen@),
        forall|k: int|
            0 <= k < chosen@.len() ==> kept@.contains(#[trigger] chosen@[k]) && side.is_owner_at(
                chosen@[k] as int,
            ) == !ordered,
        forall|k: int|
            0 <= k < kept@.len() && side.is_owner_at((#[trigger] kept@[k]) as int) == !ordered
                ==> chosen@.contains(kept@[k]),
{
    let mut chosen: Vec<usize> = Vec::new();
    let mut index: usize = 0;
    while index < kept.len()
        invariant
            side.wf(),
            index <= kept@.len(),
            indices_below(kept@, side.nodes@.len() as int),
            spread(kept@),
            indices_below(chosen@, side.nodes@.len() as int),
            spread(chosen@),
            forall|k: int|
                0 <= k < chosen@.len() ==> kept@.take(index as int).contains(#[trigger] chosen@[k])
                    && side.is_owner_at(chosen@[k] as int) == !ordered,
            forall|k: int|
                0 <= k < index && side.is_owner_at((#[trigger] kept@[k]) as int) == !ordered
                    ==> chosen@.contains(kept@[k]),
        decreases kept@.len() - index,
    {
        let child = kept[index];
        let ghost earlier = chosen@;
        let fits = side.ordered(child) == ordered;
        if fits {
            chosen.push(child);
        }
        proof {
            lemma_thinned(kept@, index as int, earlier, chosen@, fits);
            assert forall|k: int|
                0 <= k < index + 1 && side.is_owner_at((#[trigger] kept@[k]) as int)
                    == !ordered implies chosen@.contains(kept@[k]) by {
                if k < index {
                    let m = choose|m: int| 0 <= m < earlier.len() && earlier[m] == kept@[k];
                    assert(chosen@[m] == kept@[k]);
                } else {
                    assert(chosen@[chosen@.len() - 1] == kept@[k]);
                }
            }
        }
        index += 1;
    }
    assert(kept@.take(kept@.len() as int) =~= kept@);
    chosen
}

/// Whether any descendant already has a partner.
fn has_linked_descendant(tree: &SyntaxTree, linked: &Vec<Option<usize>>, root: NodeId) -> (found: bool)
    requires
        tree.wf(),
        linked@.len() == tree.nodes@.len(),
        tree.has_node(root as int),
    ensures
        found == exists|i: int|
            root < i < tree.nodes@[root as int].subtree_end && (#[trigger] linked@[i]) is Some,
{
    assert(node_fits(
        tree.nodes@[root as int],
        root as int,
        tree.nodes@.len() as int,
        tree.source.data().len() as int,
    ));
    let end = tree.nodes[root].subtree_end;
    let mut at: usize = root + 1;
    while at < end
        invariant
            tree.wf(),
            linked@.len() == tree.nodes@.len(),
            root < at <= end || at == root + 1,
            end == tree.nodes@[root as int].subtree_end,
            end <= tree.nodes@.len(),
            forall|i: int| root < i < at ==> (#[trigger] linked@[i]) is None,
        decreases end - at,
    {
        if linked[at].is_some() {
            return true;
        }
        at += 1;
    }
    false
}

/// Pair renamed siblings by syntax shape and local order.
///
/// Inner names can veto a pair but do not choose its partner. A child whose inside already has
/// recovered partners stays as it is: renaming it would change their owner.
fn match_renamed(
    before: &Side<'_>,
    after: &Side<'_>,
    before_masks: &Vec<bool>,
    after_masks: &Vec<bool>,
    partners: &mut Partners,
)
    requires
        before.wf(),
        after.wf(),
        child_pairs_ok(*before, *after, *old(partners)),
        before_masks@.len() == before.nodes@.len(),
        after_masks@.len() == after.nodes@.len(),
    ensures
        child_pairs_ok(*before, *after, *final(partners)),
        final(partners).grows(*old(partners)),
        renames_passed(
            *before,
            *after,
            before_masks@,
            after_masks@,
            *old(partners),
            *final(partners),
        ),
        renames_exactly(
            *before,
            *after,
            before_masks@,
            after_masks@,
            *old(partners),
            *final(partners),
        ),
        pairs_kept(*before, *after, *old(partners), true) ==> pairs_kept(
            *before,
            *after,
            *final(partners),
            true,
        ),
{
    let before_named = step_children(before, &partners.before, before_masks, Step::AllNamed);
    let after_named = step_children(after, &partners.after, after_masks, Step::AllNamed);
    let before_names = identity_keys(before, &before_named);
    let after_names = identity_keys(after, &after_named);
    let before_kept = without_foreign_names(before, &before_named, &after_names, false);
    let after_kept = without_foreign_names(after, &after_named, &before_names, false);
    let before_keys = step_keys(before, &before_kept, ContextKey::Role);
    let after_keys = step_keys(after, &after_kept, ContextKey::Role);
    let ghost left_keys = before_keys@;
    let ghost right_keys = after_keys@;
    let ghost left = key_views(before_keys@);
    let ghost right = key_views(after_keys@);
    let matches = ordered_key_matches(before_keys, after_keys);
    let ghost start = *partners;
    proof {
        assert forall|k: int| 0 <= k < before_kept@.len() implies before_kept@.contains(
            #[trigger] before_kept@[k],
        ) by {}
        assert forall|k: int| 0 <= k < after_kept@.len() implies after_kept@.contains(
            #[trigger] after_kept@[k],
        ) by {}
        lemma_kept_part(
            *before,
            start.before@,
            before_masks@,
            before_named@,
            before_kept@,
            before_kept@,
        );
        lemma_kept_part(
            *after,
            start.after@,
            after_masks@,
            after_named@,
            after_kept@,
            after_kept@,
        );
        assert forall|k: int| 0 <= k < before_kept@.len() implies in_step(
            *before,
            start.before@,
            before_masks@,
            Step::AllNamed,
            (#[trigger] before_kept@[k]) as int,
        ) by {
            assert(before_named@.contains(before_kept@[k]));
            let x = choose|x: int| 0 <= x < before_named@.len() && before_named@[x] == before_kept@[k];
            assert(in_step(
                *before,
                start.before@,
                before_masks@,
                Step::AllNamed,
                before_named@[x] as int,
            ));
        }
        assert forall|k: int| 0 <= k < after_kept@.len() implies in_step(
            *after,
            start.after@,
            after_masks@,
            Step::AllNamed,
            (#[trigger] after_kept@[k]) as int,
        ) by {
            assert(after_named@.contains(after_kept@[k]));
            let x = choose|x: int| 0 <= x < after_named@.len() && after_named@[x] == after_kept@[k];
            assert(in_step(
                *after,
                start.after@,
                after_masks@,
                Step::AllNamed,
                after_named@[x] as int,
            ));
        }
    }
    let mut index: usize = 0;
    while index < matches.len()
        invariant
            before.wf(),
            after.wf(),
            child_pairs_ok(*before, *after, *partners),
            partners.grows(start),
            renames_passed(*before, *after, before_masks@, after_masks@, start, *partners),
            forall|k: int|
                0 <= k < before_kept@.len() ==> in_step(
                    *before,
                    start.before@,
                    before_masks@,
                    Step::AllNamed,
                    (#[trigger] before_kept@[k]) as int,
                ),
            forall|k: int|
                0 <= k < after_kept@.len() ==> in_step(
                    *after,
                    start.after@,
                    after_masks@,
                    Step::AllNamed,
                    (#[trigger] after_kept@[k]) as int,
                ),
            forall|k: int|
                0 <= k < left_keys.len() ==> (#[trigger] left_keys[k])@ == before.key_at(
                    before_kept@[k] as int,
                    ContextKey::Role,
                ),
            forall|k: int|
                0 <= k < right_keys.len() ==> (#[trigger] right_keys[k])@ == after.key_at(
                    after_kept@[k] as int,
                    ContextKey::Role,
                ),
            are_alike(*before, before_kept@, false, true),
            are_alike(*after, after_kept@, false, true),
            pairs_kept(*before, *after, start, true) ==> pairs_kept(
                *before,
                *after,
                *partners,
                true,
            ),
            index <= matches@.len(),
            indices_below(before_kept@, before.nodes@.len() as int),
            indices_below(after_kept@, after.nodes@.len() as int),
            forall|k: int|
                0 <= k < before_kept@.len() ==> !before.is_reserved(
                    (#[trigger] before_kept@[k]) as int,
                ),
            forall|k: int|
                0 <= k < after_kept@.len() ==> !after.is_reserved(
                    (#[trigger] after_kept@[k]) as int,
                ),
            left == key_views(left_keys),
            right == key_views(right_keys),
            left_keys.len() == before_kept@.len(),
            right_keys.len() == after_kept@.len(),
            forall|k: int|
                0 <= k < left_keys.len() ==> (#[trigger] left_keys[k])@.len() >= 2 && (
                left_keys[k]@[0],
                left_keys[k]@[1],
                ) == before.shape_at(before_kept@[k] as int),
            forall|k: int|
                0 <= k < right_keys.len() ==> (#[trigger] right_keys[k])@.len() >= 2 && (
                right_keys[k]@[0],
                right_keys[k]@[1],
                ) == after.shape_at(after_kept@[k] as int),
            keys_agree(matches@, left, right),
            monotone(matches@),
            spread(before_kept@),
            spread(after_kept@),
            mutual(start.before@, start.after@),
            start.before@.len() == before.nodes@.len(),
            start.after@.len() == after.nodes@.len(),
            renames_to(
                *before,
                *after,
                before_kept@,
                after_kept@,
                matches@.take(index as int),
                start,
                *partners,
            ),
        decreases matches@.len() - index,
    {
        let edge = matches[index];
        let left_child = before_kept[edge.before];
        let right_child = after_kept[edge.after];
        let ghost earlier = *partners;
        proof {
            lemma_rename_free(
                *before,
                *after,
                before_kept@,
                after_kept@,
                matches@,
                index as int,
                start,
                *partners,
            );
        }
        if !has_linked_descendant(before.tree, before.linked, before.nodes[left_child])
            && !has_linked_descendant(after.tree, after.linked, after.nodes[right_child]) {
            let claimed = partners.claim(left_child, right_child);
            proof {
                assert(left[edge.before as int] == left_keys[edge.before as int]@);
                assert(right[edge.after as int] == right_keys[edge.after as int]@);
                assert(before_kept@[edge.before as int] == left_child);
                assert(after_kept@[edge.after as int] == right_child);
                assert(before.shape_at(left_child as int) == after.shape_at(right_child as int));
                lemma_grows_chain(*partners, earlier, start);
                assert(in_step(
                    *before,
                    start.before@,
                    before_masks@,
                    Step::AllNamed,
                    before_kept@[edge.before as int] as int,
                ));
                assert(in_step(
                    *after,
                    start.after@,
                    after_masks@,
                    Step::AllNamed,
                    after_kept@[edge.after as int] as int,
                ));
                assert forall|i: int|
                    0 <= i < before.nodes@.len() && (#[trigger] partners.before@[i]) is Some
                        && start.before@[i] is None implies in_step(
                    *before,
                    start.before@,
                    before_masks@,
                    Step::AllNamed,
                    i,
                ) && in_step(
                    *after,
                    start.after@,
                    after_masks@,
                    Step::AllNamed,
                    partners.before@[i]->0 as int,
                ) && before.key_at(i, ContextKey::Role) == after.key_at(
                    partners.before@[i]->0 as int,
                    ContextKey::Role,
                ) by {
                    if i != left_child || !claimed {
                        assert(partners.before@[i] == earlier.before@[i]);
                    }
                }
                assert(before.is_decorated_at(before_kept@[edge.before as int] as int) == false);
                assert(after.is_decorated_at(after_kept@[edge.after as int] as int) == false);
                if pairs_kept(*before, *after, start, true) {
                    assert forall|i: int| 0 <= i < before.nodes@.len() implies ((
                    #[trigger] partners.before@[i]) matches Some(j) ==> before.is_decorated_at(i)
                        == after.is_decorated_at(j as int)) by {
                        if i != left_child {
                            assert(partners.before@[i] == earlier.before@[i]);
                        }
                    }
                }
            }
        }
        proof {
            lemma_rename_step(
                *before,
                *after,
                before_kept@,
                after_kept@,
                matches@,
                index as int,
                start,
                earlier,
                *partners,
            );
        }
        index += 1;
    }
    proof {
        assert(before.nodes.len() <= usize::MAX && after.nodes.len() <= usize::MAX);
        assert(matches@.take(index as int) =~= matches@);
        assert(left =~= role_keys(*before, before_kept@));
        assert(right =~= role_keys(*after, after_kept@));
        assert(is_rename_pass(
            *before,
            *after,
            before_kept@,
            after_kept@,
            matches@,
            start,
            *partners,
        ));
        lemma_keeps_renamable(
            *before,
            *after,
            start.before@,
            start.after@,
            before_masks@,
            after_masks@,
            before_named@,
            after_named@,
            after_names@,
            before_kept@,
        );
        lemma_keeps_renamable(
            *after,
            *before,
            start.after@,
            start.before@,
            after_masks@,
            before_masks@,
            after_named@,
            before_named@,
            before_names@,
            after_kept@,
        );
    }
}

/// The ends of the next edge are free.
proof fn lemma_rename_free(
    before: Side<'_>,
    after: Side<'_>,
    before_kept: Seq<usize>,
    after_kept: Seq<usize>,
    matches: Seq<OrderedMatch>,
    index: int,
    start: Partners,
    partners: Partners,
)
    requires
        0 <= index < matches.len(),
        monotone(matches),
        spread(before_kept),
        spread(after_kept),
        forall|k: int|
            0 <= k < matches.len() ==> (#[trigger] matches[k]).before < before_kept.len()
                && matches[k].after < after_kept.len(),
        indices_below(before_kept, before.nodes@.len() as int),
        indices_below(after_kept, after.nodes@.len() as int),
        mutual(start.before@, start.after@),
        partners.wf(before.nodes@.len() as int, after.nodes@.len() as int),
        start.before@.len() == before.nodes@.len(),
        start.after@.len() == after.nodes@.len(),
        partners.grows(start),
        start.before@[before_kept[matches[index].before as int] as int] is None,
        start.after@[after_kept[matches[index].after as int] as int] is None,
        renames_to(
            before,
            after,
            before_kept,
            after_kept,
            matches.take(index),
            start,
            partners,
        ),
    ensures
        partners.before@[before_kept[matches[index].before as int] as int] is None,
        partners.after@[after_kept[matches[index].after as int] as int] is None,
{
    let known = matches.take(index);
    let left = before_kept[matches[index].before as int];
    let right = after_kept[matches[index].after as int];
    if let Some(j) = partners.before@[left as int] {
        assert(is_renamed(before, after, before_kept, after_kept, known, left as int, j));
        let k = choose|k: int|
            0 <= k < known.len() && renames_at(
                before,
                after,
                before_kept,
                after_kept,
                #[trigger] known[k],
                left as int,
                j,
            );
        assert(matches[k].before < matches[index].before);
        assert(before_kept[matches[k].before as int] < before_kept[matches[index].before as int]);
    }
    if let Some(i) = partners.after@[right as int] {
        assert(partners.before@[i as int] == Some(right));
        if start.before@[i as int] is Some {
            assert(start.before@[i as int] == Some(right));
            assert(start.after@[right as int] == Some(i));
        } else {
            assert(is_renamed(before, after, before_kept, after_kept, known, i as int, right));
            let k = choose|k: int|
                0 <= k < known.len() && renames_at(
                    before,
                    after,
                    before_kept,
                    after_kept,
                    #[trigger] known[k],
                    i as int,
                    right,
                );
            assert(matches[k].after < matches[index].after);
            assert(after_kept[matches[k].after as int] < after_kept[matches[index].after as int]);
        }
    }
}

/// One more edge.
proof fn lemma_rename_step(
    before: Side<'_>,
    after: Side<'_>,
    before_kept: Seq<usize>,
    after_kept: Seq<usize>,
    matches: Seq<OrderedMatch>,
    index: int,
    start: Partners,
    earlier: Partners,
    later: Partners,
)
    requires
        0 <= index < matches.len(),
        renames_to(before, after, before_kept, after_kept, matches.take(index), start, earlier),
        before_kept[matches[index].before as int] < earlier.before@.len(),
        earlier.before@.len() == before.nodes@.len(),
        ({
            let left = before_kept[matches[index].before as int];
            let right = after_kept[matches[index].after as int];
            earlier.before@[left as int] is None && if holds_link(before, left as int)
                || holds_link(after, right as int) {
                later == earlier
            } else {
                later.before@ == earlier.before@.update(left as int, Some(right))
            }
        }),
    ensures
        renames_to(before, after, before_kept, after_kept, matches.take(index + 1), start, later),
{
    let shorter = matches.take(index);
    let longer = matches.take(index + 1);
    let left = before_kept[matches[index].before as int];
    let right = after_kept[matches[index].after as int];
    assert(longer[index] == matches[index]);
    assert forall|i: int, j: usize|
        0 <= i < before.nodes@.len() && start.before@[i] is None implies (later.before@[i] == Some(
        j,
    ) <==> #[trigger] is_renamed(before, after, before_kept, after_kept, longer, i, j)) by {
        assert(earlier.before@[i] == Some(j) <==> is_renamed(
            before,
            after,
            before_kept,
            after_kept,
            shorter,
            i,
            j,
        ));
        if is_renamed(before, after, before_kept, after_kept, longer, i, j) {
            let k = choose|k: int|
                0 <= k < longer.len() && renames_at(
                    before,
                    after,
                    before_kept,
                    after_kept,
                    #[trigger] longer[k],
                    i,
                    j,
                );
            if k < index {
                assert(renames_at(before, after, before_kept, after_kept, shorter[k], i, j));
                assert(is_renamed(before, after, before_kept, after_kept, shorter, i, j));
                assert(earlier.before@[i] == Some(j));
            }
        }
        if is_renamed(before, after, before_kept, after_kept, shorter, i, j) {
            let k = choose|k: int|
                0 <= k < shorter.len() && renames_at(
                    before,
                    after,
                    before_kept,
                    after_kept,
                    #[trigger] shorter[k],
                    i,
                    j,
                );
            assert(renames_at(before, after, before_kept, after_kept, longer[k], i, j));
        }
        if later.before@[i] == Some(j) && i == left {
            if later != earlier {
                assert(renames_at(
                    before,
                    after,
                    before_kept,
                    after_kept,
                    longer[index],
                    i,
                    j,
                ));
            }
        }
    }
}

/// Children kept of the named ones are those that no name of the other side stands for.
proof fn lemma_keeps_renamable(
    side: Side<'_>,
    other: Side<'_>,
    partner: Seq<Option<usize>>,
    other_partner: Seq<Option<usize>>,
    masks: Seq<bool>,
    other_masks: Seq<bool>,
    named: Seq<usize>,
    other_named: Seq<usize>,
    names: Seq<(usize, usize)>,
    kept: Seq<usize>,
)
    requires
        side.nodes@.len() <= usize::MAX,
        other.nodes@.len() <= usize::MAX,
        lists_step(side, partner, masks, Step::AllNamed, named, side.nodes@.len() as int),
        lists_step(
            other,
            other_partner,
            other_masks,
            Step::AllNamed,
            other_named,
            other.nodes@.len() as int,
        ),
        forall|k: int| 0 <= k < names.len() ==> is_listed_name(other, other_named, #[trigger] names[k]),
        forall|k: int|
            0 <= k < other_named.len() && other.is_named_at((#[trigger] other_named[k]) as int)
                ==> names.contains(other.name_at(other_named[k] as int)),
        spread(kept),
        forall|k: int| 0 <= k < kept.len() ==> named.contains(#[trigger] kept[k]),
        forall|k: int|
            0 <= k < named.len() ==> (kept.contains(#[trigger] named[k]) <==> !shares_name(
                side,
                named[k] as int,
                false,
                names,
            )),
    ensures
        keeps_renamable(side, other, partner, other_partner, masks, other_masks, kept),
{
    lemma_free_names(other, other_partner, other_masks, other_named, names);
    assert forall|k: int| 0 <= k < kept.len() implies (#[trigger] kept[k]) < side.nodes@.len()
        && in_step(side, partner, masks, Step::AllNamed, kept[k] as int) by {
        assert(named.contains(kept[k]));
        let x = choose|x: int| 0 <= x < named.len() && named[x] == kept[k];
        assert(in_step(side, partner, masks, Step::AllNamed, named[x] as int));
    }
    assert forall|i: int|
        0 <= i < side.nodes@.len() && #[trigger] in_step(
            side,
            partner,
            masks,
            Step::AllNamed,
            i,
        ) implies (kept.contains(i as usize) <==> !shares_name(side, i, false, names)) by {
        assert(named.contains(i as usize));
        let x = choose|x: int| 0 <= x < named.len() && named[x] == i as usize;
        assert(kept.contains(named[x]) <==> !shares_name(side, named[x] as int, false, names));
    }
}

/// Match nameless children: owners by shape, then by their children's names, then by order.
fn match_nameless(
    before: &Side<'_>,
    after: &Side<'_>,
    before_masks: &Vec<bool>,
    after_masks: &Vec<bool>,
    partners: &mut Partners,
)
    requires
        before.wf(),
        after.wf(),
        child_pairs_ok(*before, *after, *old(partners)),
        before_masks@.len() == before.nodes@.len(),
        after_masks@.len() == after.nodes@.len(),
        masks_echo(*before, *after, before_masks@),
        masks_echo(*after, *before, after_masks@),
    ensures
        child_pairs_ok(*before, *after, *final(partners)),
        final(partners).grows(*old(partners)),
        owners_exhausted(*before, *after, *final(partners)),
        shapes_exhausted(*before, *after, *final(partners)),
        nameless_passed(
            *before,
            *after,
            before_masks@,
            after_masks@,
            *old(partners),
            *final(partners),
        ),
        forall|renames: bool| #[trigger]
            pairs_kept(*before, *after, *old(partners), renames) ==> pairs_kept(
                *before,
                *after,
                *final(partners),
                renames,
            ),
{
    let ghost start = *partners;
    let before_owners = step_children(before, &partners.before, before_masks, Step::NamelessOwners);
    let after_owners = step_children(after, &partners.after, after_masks, Step::NamelessOwners);
    claim_step(before, after, &before_owners, &after_owners, ContextKey::Role, false, partners);
    let ghost owners = *partners;
    let before_all = step_children(before, &partners.before, before_masks, Step::NamelessSyntax);
    let after_all = step_children(after, &partners.after, after_masks, Step::NamelessSyntax);
    let before_keyed = with_child_names(before, &before_all);
    let after_keyed = with_child_names(after, &after_all);
    claim_step(before, after, &before_keyed, &after_keyed, ContextKey::ChildNames, false, partners);
    let ghost keyed = *partners;
    let before_rest = step_children(before, &partners.before, before_masks, Step::NamelessSyntax);
    let after_rest = step_children(after, &partners.after, after_masks, Step::NamelessSyntax);
    claim_step(before, after, &before_rest, &after_rest, ContextKey::Shape, true, partners);
    proof {
        assert(before.nodes.len() <= usize::MAX && after.nodes.len() <= usize::MAX);
        lemma_names_children(*before, owners.before@, before_masks@, before_all@, before_keyed@);
        lemma_names_children(*after, owners.after@, after_masks@, after_all@, after_keyed@);
        assert(is_nameless_pass(
            *before,
            *after,
            before_masks@,
            after_masks@,
            (before_owners@, before_keyed@, before_rest@),
            (after_owners@, after_keyed@, after_rest@),
            start,
            owners,
            keyed,
            *partners,
        ));
        assert forall|k: int| 0 <= k < before_owners@.len() implies before_owners@.contains(
            #[trigger] before_owners@[k],
        ) by {}
        lemma_alike(*before, start.before@, before_masks@, Step::NamelessOwners, before_owners@, before_owners@);
        assert forall|k: int| 0 <= k < after_owners@.len() implies after_owners@.contains(
            #[trigger] after_owners@[k],
        ) by {}
        lemma_alike(*after, start.after@, after_masks@, Step::NamelessOwners, after_owners@, after_owners@);
        assert forall|k: int| 0 <= k < before_keyed@.len() implies before_all@.contains(
            #[trigger] before_keyed@[k],
        ) by {}
        lemma_alike(*before, owners.before@, before_masks@, Step::NamelessSyntax, before_all@, before_keyed@);
        assert forall|k: int| 0 <= k < after_keyed@.len() implies after_all@.contains(
            #[trigger] after_keyed@[k],
        ) by {}
        lemma_alike(*after, owners.after@, after_masks@, Step::NamelessSyntax, after_all@, after_keyed@);
        assert forall|k: int| 0 <= k < before_rest@.len() implies before_rest@.contains(
            #[trigger] before_rest@[k],
        ) by {}
        lemma_alike(*before, keyed.before@, before_masks@, Step::NamelessSyntax, before_rest@, before_rest@);
        assert forall|k: int| 0 <= k < after_rest@.len() implies after_rest@.contains(
            #[trigger] after_rest@[k],
        ) by {}
        lemma_alike(*after, keyed.after@, after_masks@, Step::NamelessSyntax, after_rest@, after_rest@);
        lemma_kept_by_step(
            *before,
            *after,
            before_owners@,
            after_owners@,
            ContextKey::Role,
            owners,
            start,
            false,
            false,
        );
        lemma_kept_by_step(
            *before,
            *after,
            before_keyed@,
            after_keyed@,
            ContextKey::ChildNames,
            keyed,
            owners,
            false,
            false,
        );
        lemma_kept_by_step(
            *before,
            *after,
            before_rest@,
            after_rest@,
            ContextKey::Shape,
            *partners,
            keyed,
            false,
            false,
        );
        lemma_grows_chain(keyed, owners, start);
        lemma_grows_chain(*partners, keyed, start);
        lemma_grows_chain(*partners, keyed, owners);
        assert(before.nodes.len() <= usize::MAX && after.nodes.len() <= usize::MAX);
        assert forall|i: int, j: int| #[trigger]
            before.is_plain(*after, i) && #[trigger] after.is_plain(*before, j)
                && !before.is_named_at(i) && !after.is_named_at(j) && before.is_owner_at(i)
                && before.key_at(i, ContextKey::Role) == after.key_at(
                j,
                ContextKey::Role,
            ) implies partners.before@[i] is Some || partners.after@[j] is Some by {
            if partners.before@[i] is None && partners.after@[j] is None {
                assert(start.before@[i] is None && start.after@[j] is None);
                assert(owners.before@[i] is None && owners.after@[j] is None);
                lemma_key_role(*before, *after, i, j);
                assert(in_step(*before, start.before@, before_masks@, Step::NamelessOwners, i));
                assert(in_step(*after, start.after@, after_masks@, Step::NamelessOwners, j));
                assert(before_owners@.contains(i as usize) && after_owners@.contains(j as usize));
            }
        }
        assert forall|i: int, j: int| #[trigger]
            before.is_plain(*after, i) && #[trigger] after.is_plain(*before, j)
                && !before.is_named_at(i) && !after.is_named_at(j) && !before.is_owner_at(i)
                && !after.is_owner_at(j) && before.shape_at(i) == after.shape_at(
                j,
            ) implies partners.before@[i] is Some || partners.after@[j] is Some || is_crossed(
            *partners,
            i,
            j,
        ) by {
            if partners.before@[i] is None && partners.after@[j] is None {
                assert(keyed.before@[i] is None && keyed.after@[j] is None);
                assert(in_step(*before, keyed.before@, before_masks@, Step::NamelessSyntax, i));
                assert(in_step(*after, keyed.after@, after_masks@, Step::NamelessSyntax, j));
                assert(before_rest@.contains(i as usize) && after_rest@.contains(j as usize));
                assert(before.key_at(i, ContextKey::Shape) =~= after.key_at(j, ContextKey::Shape));
            }
        }
    }
}

/// The listed children that have a named child of their own.
fn with_child_names(side: &Side<'_>, indices: &Vec<usize>) -> (kept: Vec<usize>)
    requires
        side.wf(),
        indices_below(indices@, side.nodes@.len() as int),
        spread(indices@),
    ensures
        indices_below(kept@, side.nodes@.len() as int),
        spread(kept@),
        forall|k: int|
            0 <= k < kept@.len() ==> indices@.contains(#[trigger] kept@[k]) && side.key_at(
                kept@[k] as int,
                ContextKey::ChildNames,
            ).len() > 2,
        forall|k: int|
            0 <= k < indices@.len() && side.key_at(
                (#[trigger] indices@[k]) as int,
                ContextKey::ChildNames,
            ).len() > 2 ==> kept@.contains(indices@[k]),
{
    let mut kept: Vec<usize> = Vec::new();
    let mut index: usize = 0;
    while index < indices.len()
        invariant
            side.wf(),
            index <= indices@.len(),
            indices_below(indices@, side.nodes@.len() as int),
            spread(indices@),
            indices_below(kept@, side.nodes@.len() as int),
            spread(kept@),
            forall|k: int|
                0 <= k < kept@.len() ==> indices@.take(index as int).contains(#[trigger] kept@[k])
                    && side.key_at(kept@[k] as int, ContextKey::ChildNames).len() > 2,
            forall|k: int|
                0 <= k < index && side.key_at(
                    (#[trigger] indices@[k]) as int,
                    ContextKey::ChildNames,
                ).len() > 2 ==> kept@.contains(indices@[k]),
        decreases indices@.len() - index,
    {
        let child = indices[index];
        let ghost earlier = kept@;
        let key = context_key(side.tree, side.facts, side.nodes[child], ContextKey::ChildNames);
        let fits = key.len() > 2;
        if fits {
            kept.push(child);
        }
        proof {
            lemma_thinned(indices@, index as int, earlier, kept@, fits);
            assert forall|k: int|
                0 <= k < index + 1 && side.key_at(
                    (#[trigger] indices@[k]) as int,
                    ContextKey::ChildNames,
                ).len() > 2 implies kept@.contains(indices@[k]) by {
                if k < index {
                    let x = choose|x: int| 0 <= x < earlier.len() && earlier[x] == indices@[k];
                    assert(kept@[x] == indices@[k]);
                } else {
                    assert(kept@[kept@.len() - 1] == indices@[k]);
                }
            }
        }
        index += 1;
    }
    assert(indices@.take(indices@.len() as int) =~= indices@);
    kept
}

/// The children with named children are listed exactly.
proof fn lemma_names_children(
    side: Side<'_>,
    partner: Seq<Option<usize>>,
    masks: Seq<bool>,
    all: Seq<usize>,
    kept: Seq<usize>,
)
    requires
        side.nodes@.len() <= usize::MAX,
        lists_step(side, partner, masks, Step::NamelessSyntax, all, side.nodes@.len() as int),
        spread(kept),
        forall|k: int|
            0 <= k < kept.len() ==> all.contains(#[trigger] kept[k]) && side.key_at(
                kept[k] as int,
                ContextKey::ChildNames,
            ).len() > 2,
        forall|k: int|
            0 <= k < all.len() && side.key_at(
                (#[trigger] all[k]) as int,
                ContextKey::ChildNames,
            ).len() > 2 ==> kept.contains(all[k]),
    ensures
        names_children(side, partner, masks, kept),
{
    assert forall|i: int| 0 <= i < side.nodes@.len() implies (#[trigger] kept.contains(i as usize)
        <==> in_step(side, partner, masks, Step::NamelessSyntax, i) && side.key_at(
        i,
        ContextKey::ChildNames,
    ).len() > 2) by {
        if kept.contains(i as usize) {
            let k = choose|k: int| 0 <= k < kept.len() && kept[k] == i as usize;
            assert(all.contains(kept[k]));
            let x = choose|x: int| 0 <= x < all.len() && all[x] == kept[k];
            assert(in_step(side, partner, masks, Step::NamelessSyntax, all[x] as int));
        }
        if in_step(side, partner, masks, Step::NamelessSyntax, i) && side.key_at(
            i,
            ContextKey::ChildNames,
        ).len() > 2 {
            assert(all.contains(i as usize));
            let x = choose|x: int| 0 <= x < all.len() && all[x] == i as usize;
            assert(kept.contains(all[x]));
        }
    }
}

/// A free, unmasked decoration of the owner.
pub open spec fn is_free_decoration(
    side: Side<'_>,
    partner: Seq<Option<usize>>,
    masks: Seq<bool>,
    owner: NodeId,
    index: int,
) -> bool {
    partner[index] is None && !side.is_reserved(index) && !masks[index] && side.node_at(
        index,
    ).decoration_owner == Some(owner)
}

/// Free decorations of one owner.
fn decorations_of(
    side: &Side<'_>,
    partner: &Vec<Option<usize>>,
    masks: &Vec<bool>,
    owner: NodeId,
) -> (indices: Vec<usize>)
    requires
        side.wf(),
        partner@.len() == side.nodes@.len(),
        masks@.len() == side.nodes@.len(),
    ensures
        indices_below(indices@, side.nodes@.len() as int),
        spread(indices@),
        free_at(partner@, indices@),
        forall|k: int|
            0 <= k < indices@.len() ==> !side.is_reserved((#[trigger] indices@[k]) as int)
                && side.node_at(indices@[k] as int).decoration_owner == Some(owner),
        forall|i: int|
            0 <= i < side.nodes@.len() && #[trigger] is_free_decoration(
                *side,
                partner@,
                masks@,
                owner,
                i,
            ) ==> indices@.contains(i as usize),
        lists_decorations(*side, partner@, masks@, owner, indices@),
{
    let mut indices: Vec<usize> = Vec::new();
    let mut index: usize = 0;
    while index < side.nodes.len()
        invariant
            side.wf(),
            partner@.len() == side.nodes@.len(),
            masks@.len() == side.nodes@.len(),
            index <= side.nodes@.len(),
            indices_below(indices@, index as int),
            spread(indices@),
            free_at(partner@, indices@),
            forall|k: int|
                0 <= k < indices@.len() ==> !side.is_reserved((#[trigger] indices@[k]) as int)
                    && side.node_at(indices@[k] as int).decoration_owner == Some(owner)
                    && !masks@[indices@[k] as int],
            forall|i: int|
                0 <= i < index && #[trigger] is_free_decoration(
                    *side,
                    partner@,
                    masks@,
                    owner,
                    i,
                ) ==> indices@.contains(i as usize),
        decreases side.nodes@.len() - index,
    {
        let ghost earlier = indices@;
        if partner[index].is_none() && !side.reserved(index) && !masks[index] {
            if let Some(decorated) = side.tree.nodes[side.nodes[index]].decoration_owner {
                if decorated == owner {
                    indices.push(index);
                }
            }
        }
        proof {
            assert forall|i: int|
                0 <= i < index + 1 && #[trigger] is_free_decoration(
                    *side,
                    partner@,
                    masks@,
                    owner,
                    i,
                ) implies indices@.contains(i as usize) by {
                if i < index {
                    let k = choose|k: int| 0 <= k < earlier.len() && earlier[k] == i as usize;
                    assert(indices@[k] == i as usize);
                } else {
                    assert(indices@[indices@.len() - 1] == i as usize);
                }
            }
        }
        index += 1;
    }
    proof {
        assert(side.nodes.len() <= usize::MAX);
        assert forall|i: int| 0 <= i < side.nodes@.len() implies (#[trigger] is_free_decoration(
            *side,
            partner@,
            masks@,
            owner,
            i,
        ) <==> indices@.contains(i as usize)) by {
            if indices@.contains(i as usize) {
                let k = choose|k: int| 0 <= k < indices@.len() && indices@[k] == i as usize;
                assert(partner@[indices@[k] as int] is None);
            }
        }
    }
    indices
}

/// Position of a node among the candidates.
fn position_of(side: &Side<'_>, node: NodeId) -> (position: Option<usize>)
    requires
        side.wf(),
    ensures
        position matches Some(index) ==> index < side.nodes@.len() && side.nodes@[index as int]
            == node && forall|k: int| 0 <= k < index ==> (#[trigger] side.nodes@[k]) != node,
        position is None ==> !side.nodes@.contains(node),
{
    let mut index: usize = 0;
    while index < side.nodes.len()
        invariant
            side.wf(),
            index <= side.nodes@.len(),
            forall|k: int| 0 <= k < index ==> side.nodes@[k] != node,
        decreases side.nodes@.len() - index,
    {
        if side.nodes[index] == node {
            return Some(index);
        }
        index += 1;
    }
    None
}

/// Match the decorations of one owner pair: equal content, then structure, then shape, in order.
fn match_owner_decorations(
    before: &Side<'_>,
    after: &Side<'_>,
    before_masks: &Vec<bool>,
    after_masks: &Vec<bool>,
    before_owner: NodeId,
    after_owner: NodeId,
    partners: &mut Partners,
)
    requires
        before.wf(),
        after.wf(),
        child_pairs_ok(*before, *after, *old(partners)),
        before_masks@.len() == before.nodes@.len(),
        after_masks@.len() == after.nodes@.len(),
    ensures
        child_pairs_ok(*before, *after, *final(partners)),
        final(partners).grows(*old(partners)),
        forall|renames: bool| #[trigger]
            pairs_kept(*before, *after, *old(partners), renames) ==> pairs_kept(
                *before,
                *after,
                *final(partners),
                renames,
            ),
        forall|i: int, j: int|
            0 <= i < before.nodes@.len() && 0 <= j < after.nodes@.len()
                && #[trigger] is_free_decoration(
                *before,
                final(partners).before@,
                before_masks@,
                before_owner,
                i,
            ) && #[trigger] is_free_decoration(
                *after,
                final(partners).after@,
                after_masks@,
                after_owner,
                j,
            ) && before.shape_at(i) == after.shape_at(j) ==> is_crossed(*final(partners), i, j),
        owner_passed(
            *before,
            *after,
            before_masks@,
            after_masks@,
            before_owner,
            after_owner,
            *old(partners),
            *final(partners),
        ),
{
    let ghost start = *partners;
    let before_group = decorations_of(before, &partners.before, before_masks, before_owner);
    let after_group = decorations_of(after, &partners.after, after_masks, after_owner);
    let before_prints = full_prints(before, &before_group);
    let after_prints = full_prints(after, &after_group);
    let matches = ordered_matches(before_prints.as_slice(), after_prints.as_slice());
    proof {
        lemma_monotone_one_to_one(matches@);
    }
    partners.claim_all(&before_group, &after_group, &matches);
    proof {
        lemma_content_step(
            *before,
            *after,
            before_group@,
            after_group@,
            before_prints@,
            after_prints@,
            matches@,
            start,
            *partners,
        );
        assert forall|i: int| 0 <= i < before.nodes@.len() implies ((
        #[trigger] partners.before@[i]) matches Some(j) ==> !before.is_reserved(i)
            && !after.is_reserved(j as int) && children_agree(*before, *after, i, j as int)) by {
            if partners.before@[i] is Some {
                if start.before@[i] is None {
                    let k = choose|k: int|
                        0 <= k < matches@.len() && before_group@[(
                        #[trigger] matches@[k]).before as int] == i
                            && after_group@[matches@[k].after as int] == partners.before@[i]->0;
                    let edge = matches@[k];
                    assert(before_prints@[edge.before as int] == after_prints@[edge.after as int]);
                    assert(before_group@[edge.before as int] == i);
                    assert(after_group@[edge.after as int] == partners.before@[i]->0);
                    assert(before.full_at(i) == after.full_at(partners.before@[i]->0 as int));
                } else {
                    assert(partners.before@[i] == start.before@[i]);
                }
            }
        }
    }
    let ghost exact = *partners;
    proof {
        assert(are_alike(*before, before_group@, true, false));
        assert(are_alike(*after, after_group@, true, false));
        assert forall|renames: bool| #[trigger]
            pairs_kept(*before, *after, start, renames) implies pairs_kept(
            *before,
            *after,
            exact,
            renames,
        ) by {
            assert forall|i: int| 0 <= i < before.nodes@.len() implies ((
            #[trigger] exact.before@[i]) matches Some(j) ==> before.is_decorated_at(i)
                == after.is_decorated_at(j as int) && (before.is_decorated_at(i) || renames
                || before.identity_at(i) == after.identity_at(j as int))) by {
                if exact.before@[i] is Some {
                    if start.before@[i] is None {
                        let k = choose|k: int|
                            0 <= k < matches@.len() && before_group@[(
                            #[trigger] matches@[k]).before as int] == i
                                && after_group@[matches@[k].after as int] == exact.before@[i]->0;
                        let edge = matches@[k];
                        assert(before_prints@[edge.before as int]
                            == after_prints@[edge.after as int]);
                        assert(before.is_decorated_at(before_group@[edge.before as int] as int));
                        assert(after.is_decorated_at(after_group@[edge.after as int] as int));
                    } else {
                        assert(exact.before@[i] == start.before@[i]);
                    }
                }
            }
        }
    }
    let before_rest = decorations_of(before, &partners.before, before_masks, before_owner);
    let after_rest = decorations_of(after, &partners.after, after_masks, after_owner);
    claim_step(before, after, &before_rest, &after_rest, ContextKey::Structure, true, partners);
    let ghost shaped = *partners;
    let before_last = decorations_of(before, &partners.before, before_masks, before_owner);
    let after_last = decorations_of(after, &partners.after, after_masks, after_owner);
    claim_step(before, after, &before_last, &after_last, ContextKey::Shape, true, partners);
    proof {
        reveal(owner_passed);
        assert(is_owner_step(
            *before,
            *after,
            before_masks@,
            after_masks@,
            before_owner,
            after_owner,
            (before_group@, before_rest@, before_last@),
            (after_group@, after_rest@, after_last@),
            start,
            exact,
            shaped,
            *partners,
        ));
        assert(before.nodes.len() <= usize::MAX);
        lemma_kept_by_step(
            *before,
            *after,
            before_rest@,
            after_rest@,
            ContextKey::Structure,
            shaped,
            exact,
            true,
            false,
        );
        lemma_kept_by_step(
            *before,
            *after,
            before_last@,
            after_last@,
            ContextKey::Shape,
            *partners,
            shaped,
            true,
            false,
        );
        lemma_grows_chain(shaped, exact, start);
        lemma_grows_chain(*partners, shaped, start);
        assert(before.nodes.len() <= usize::MAX && after.nodes.len() <= usize::MAX);
        assert forall|i: int, j: int|
            0 <= i < before.nodes@.len() && 0 <= j < after.nodes@.len()
                && #[trigger] is_free_decoration(
                *before,
                partners.before@,
                before_masks@,
                before_owner,
                i,
            ) && #[trigger] is_free_decoration(
                *after,
                partners.after@,
                after_masks@,
                after_owner,
                j,
            ) && before.shape_at(i) == after.shape_at(j) implies is_crossed(*partners, i, j) by {
            assert(shaped.before@[i] is None && shaped.after@[j] is None);
            assert(is_free_decoration(*before, shaped.before@, before_masks@, before_owner, i));
            assert(is_free_decoration(*after, shaped.after@, after_masks@, after_owner, j));
            assert(before_last@.contains(i as usize) && after_last@.contains(j as usize));
            assert(before.key_at(i, ContextKey::Shape) =~= after.key_at(j, ContextKey::Shape));
        }
    }
}

/// Claiming a maximal alignment of content prints is a step by content.
proof fn lemma_content_step(
    before: Side<'_>,
    after: Side<'_>,
    before_group: Seq<usize>,
    after_group: Seq<usize>,
    before_prints: Seq<usize>,
    after_prints: Seq<usize>,
    matches: Seq<OrderedMatch>,
    earlier: Partners,
    later: Partners,
)
    requires
        later.grows(earlier),
        mutual(later.before@, later.after@),
        later.before@.len() == before.nodes@.len(),
        indices_below(before_group, later.before@.len() as int),
        spread(before_group),
        spread(after_group),
        before_prints.len() == before_group.len() <= usize::MAX,
        after_prints.len() == after_group.len() <= usize::MAX,
        forall|k: int|
            0 <= k < before_prints.len() ==> (#[trigger] before_prints[k]) == before.full_at(
                before_group[k] as int,
            ),
        forall|k: int|
            0 <= k < after_prints.len() ==> (#[trigger] after_prints[k]) == after.full_at(
                after_group[k] as int,
            ),
        is_anchored_alignment(matches, before_prints, after_prints),
        new_pairs_from(later, earlier, before_group, after_group, matches),
        all_claimed(later, before_group, after_group, matches),
        forall|k: int|
            0 <= k < matches.len() ==> (#[trigger] matches[k]).before < before_group.len()
                && matches[k].after < after_group.len() && before_prints[matches[k].before as int]
                == after_prints[matches[k].after as int],
    ensures
        is_content_step(before, after, before_group, after_group, earlier, later),
{
    assert forall|i: int|
        0 <= i < before.nodes@.len() && (#[trigger] later.before@[i]) is Some
            && earlier.before@[i] is None implies before_group.contains(i as usize)
        && after_group.contains(later.before@[i]->0) && before.full_at(i) == after.full_at(
        later.before@[i]->0 as int,
    ) by {
        let k = choose|k: int|
            0 <= k < matches.len() && before_group[(#[trigger] matches[k]).before as int] == i
                && after_group[matches[k].after as int] == later.before@[i]->0;
        let x = matches[k].before as int;
        let y = matches[k].after as int;
        assert(before_group[x] == i as usize);
        assert(before_prints[x] == after_prints[y]);
    }
    assert forall|i: usize, j: usize| #[trigger]
        before_group.contains(i) && #[trigger] after_group.contains(j) && before.full_at(i as int)
            == after.full_at(j as int) implies later.before@[i as int] is Some
        || later.after@[j as int] is Some || is_crossed(later, i as int, j as int) by {
        let x = choose|x: int| 0 <= x < before_group.len() && before_group[x] == i;
        let y = choose|y: int| 0 <= y < after_group.len() && after_group[y] == j;
        assert(before_prints[x] == after_prints[y]);
        law_anchored_alignment_is_maximal(matches, before_prints, after_prints, x, y);
        lemma_blocked_is_crossed(later, before_group, after_group, matches, x, y);
    }
}

/// Content prints of listed children.
fn full_prints(side: &Side<'_>, indices: &Vec<usize>) -> (prints: Vec<usize>)
    requires
        side.wf(),
        indices_below(indices@, side.nodes@.len() as int),
    ensures
        prints@.len() == indices@.len(),
        forall|k: int|
            0 <= k < prints@.len() ==> (#[trigger] prints@[k]) == side.full_at(indices@[k] as int),
{
    let mut prints: Vec<usize> = Vec::new();
    let mut index: usize = 0;
    while index < indices.len()
        invariant
            side.wf(),
            indices_below(indices@, side.nodes@.len() as int),
            index <= indices@.len(),
            prints@.len() == index,
            forall|k: int|
                0 <= k < prints@.len() ==> (#[trigger] prints@[k]) == side.full_at(
                    indices@[k] as int,
                ),
        decreases indices@.len() - index,
    {
        prints.push(side.facts.prints[side.nodes[indices[index]]].full);
        index += 1;
    }
    prints
}

/// Decorations handled so far stay handled, and the next one is.
proof fn lemma_decorations_step(
    before: Side<'_>,
    after: Side<'_>,
    later: Partners,
    earlier: Partners,
    index: int,
)
    requires
        child_pairs_ok(before, after, earlier),
        later.grows(earlier),
        decorations_exhausted(before, after, earlier, index),
        forall|j: int| #[trigger]
            after.is_decoration(before, j) && before.is_decoration(after, index)
                && before.linked@[before.node_at(index).decoration_owner->0 as int]
                == after.node_at(j).decoration_owner && before.shape_at(index) == after.shape_at(j)
                ==> later.before@[index] is Some || later.after@[j] is Some || is_crossed(
                later,
                index,
                j,
            ),
    ensures
        decorations_exhausted(before, after, later, index + 1),
{
    assert forall|i: int, j: int|
        0 <= i < index + 1 && #[trigger] before.is_decoration(after, i)
            && #[trigger] after.is_decoration(before, j)
            && before.linked@[before.node_at(i).decoration_owner->0 as int] == after.node_at(
            j,
        ).decoration_owner && before.shape_at(i) == after.shape_at(
            j,
        ) implies later.before@[i] is Some || later.after@[j] is Some || is_crossed(
        later,
        i,
        j,
    ) by {
        if i < index {
            assert(earlier.before@[i] is Some || earlier.after@[j] is Some || is_crossed(
                earlier,
                i,
                j,
            ));
            if is_crossed(earlier, i, j) {
                lemma_crossed_grows(later, earlier, i, j);
            }
        }
    }
}

/// Pair decorations within already matched owners.
fn decoration_matches(
    before: &Side<'_>,
    after: &Side<'_>,
    before_masks: &Vec<bool>,
    after_masks: &Vec<bool>,
    partners: &mut Partners,
)
    requires
        before.wf(),
        after.wf(),
        child_pairs_ok(*before, *after, *old(partners)),
        before_masks@.len() == before.nodes@.len(),
        after_masks@.len() == after.nodes@.len(),
        masks_echo(*before, *after, before_masks@),
        masks_echo(*after, *before, after_masks@),
    ensures
        child_pairs_ok(*before, *after, *final(partners)),
        final(partners).grows(*old(partners)),
        decorations_exhausted(*before, *after, *final(partners), before.nodes@.len() as int),
        decorations_passed(
            *before,
            *after,
            before_masks@,
            after_masks@,
            *old(partners),
            *final(partners),
        ),
        forall|renames: bool| #[trigger]
            pairs_kept(*before, *after, *old(partners), renames) ==> pairs_kept(
                *before,
                *after,
                *final(partners),
                renames,
            ),
{
    let ghost start = *partners;
    let ghost mut steps: Seq<Partners> = seq![*partners];
    let ghost mut middles: Seq<Partners> = Seq::empty();
    let mut index: usize = 0;
    while index < before.nodes.len()
        invariant
            before.wf(),
            after.wf(),
            are_decoration_steps(
                *before,
                *after,
                before_masks@,
                after_masks@,
                steps,
                middles,
            ),
            middles.len() == index,
            steps.len() == index + 1,
            steps[0] == start,
            steps.last() == *partners,
            child_pairs_ok(*before, *after, *partners),
            partners.grows(start),
            forall|renames: bool| #[trigger]
                pairs_kept(*before, *after, start, renames) ==> pairs_kept(
                    *before,
                    *after,
                    *partners,
                    renames,
                ),
            before_masks@.len() == before.nodes@.len(),
            after_masks@.len() == after.nodes@.len(),
            masks_echo(*before, *after, before_masks@),
            masks_echo(*after, *before, after_masks@),
            decorations_exhausted(*before, *after, *partners, index as int),
            index <= before.nodes@.len(),
        decreases before.nodes@.len() - index,
    {
        let ghost earlier = *partners;
        let ghost mut between = *partners;
        if let Some(owner) = before.tree.nodes[before.nodes[index]].decoration_owner {
            if owner < before.linked.len() {
                if let Some(linked) = before.linked[owner] {
                    match_owner_decorations(
                        before,
                        after,
                        before_masks,
                        after_masks,
                        owner,
                        linked,
                        partners,
                    );
                }
            }
            let ghost middle = *partners;
            proof {
                between = *partners;
            }
            let found = position_of(before, owner);
            proof {
                if exists|p: int| is_partnered_at(*before, middle, owner, p) {
                    let p = choose|p: int| is_partnered_at(*before, middle, owner, p);
                    let at = found->0 as int;
                    assert(before.nodes@[p] == owner);
                    if p < at {
                        assert(before.nodes@[p] != owner);
                    }
                    if at < p {
                        assert(before.nodes@[at] != owner);
                    }
                }
            }
            if let Some(position) = found {
                if let Some(other) = partners.before[position] {
                    assert(is_partnered_at(*before, middle, owner, position as int));
                    match_owner_decorations(
                        before,
                        after,
                        before_masks,
                        after_masks,
                        owner,
                        after.nodes[other],
                        partners,
                    );
                }
            }
            proof {
                lemma_grows_chain(middle, earlier, start);
                lemma_grows_chain(*partners, middle, start);
                lemma_grows_chain(*partners, middle, earlier);
                if owner < before.linked@.len() {
                    assert forall|j: int| #[trigger]
                        after.is_decoration(*before, j) && before.is_decoration(
                            *after,
                            index as int,
                        ) && before.linked@[owner as int] == after.node_at(j).decoration_owner
                            && before.shape_at(index as int) == after.shape_at(j)
                            && middle.before@[index as int] is None
                            && middle.after@[j] is None implies is_crossed(
                        middle,
                        index as int,
                        j,
                    ) by {
                        let linked = before.linked@[owner as int]->0;
                        assert(is_free_decoration(
                            *before,
                            middle.before@,
                            before_masks@,
                            owner,
                            index as int,
                        ));
                        assert(is_free_decoration(*after, middle.after@, after_masks@, linked, j));
                    }
                }
            }
        }
        proof {
            lemma_decorations_step(*before, *after, *partners, earlier, index as int);
            assert(is_decoration_step(
                *before,
                *after,
                before_masks@,
                after_masks@,
                index as int,
                earlier,
                between,
                *partners,
            ));
            let more = steps.push(*partners);
            let turns = middles.push(between);
            assert forall|k: int| 0 <= k < turns.len() implies is_decoration_step(
                *before,
                *after,
                before_masks@,
                after_masks@,
                k,
                more[k],
                #[trigger] turns[k],
                more[k + 1],
            ) by {
                if k < middles.len() {
                    assert(turns[k] == middles[k]);
                    assert(more[k] == steps[k] && more[k + 1] == steps[k + 1]);
                }
            }
            steps = more;
            middles = turns;
        }
        index += 1;
    }
    assert(are_decoration_steps(*before, *after, before_masks@, after_masks@, steps, middles));
}

/// Match the free children of two paired contexts.
///
/// Names decide first, within roles, then names of inner children, then order among equal
/// shapes. Decorations follow their owners. With `allow_renames`, leftover named children pair
/// by shape and order.
pub fn contextual_child_matches(
    scene: &Scene<'_>,
    links: &ContextLinks,
    before_nodes: &Vec<NodeId>,
    after_nodes: &Vec<NodeId>,
    allow_renames: bool,
) -> (partners: Partners)
    requires
        scene.wf(),
        links.wf(scene.before_len(), scene.after_len()),
        indices_below(before_nodes@, scene.before_len()),
        indices_below(after_nodes@, scene.after_len()),
    ensures
        children_matched(
            before_side(*scene, *links, *before_nodes),
            after_side(*scene, *links, *after_nodes),
            partners,
            allow_renames,
        ),
{
    let before = Side {
        tree: &scene.pair.before,
        facts: scene.before,
        linked: &links.partners.before,
        nodes: before_nodes,
    };
    let after = Side {
        tree: &scene.pair.after,
        facts: scene.after,
        linked: &links.partners.after,
        nodes: after_nodes,
    };
    let before_targets = Targets::new(&before);
    let after_targets = Targets::new(&after);
    let before_masks = masked_children(
        scene.pair,
        links,
        &before,
        &after_targets,
        true,
        Ghost(after),
    );
    let after_masks = masked_children(
        scene.pair,
        links,
        &after,
        &before_targets,
        false,
        Ghost(before),
    );
    proof {
        lemma_masks_echo(before, after, after_targets, before_masks@);
        lemma_masks_echo(after, before, before_targets, after_masks@);
    }
    let mut partners = Partners::new(before_nodes.len(), after_nodes.len());
    let ghost blank = partners;
    assert(pairs_kept(before, after, partners, allow_renames));
    match_named(&before, &after, &before_masks, &after_masks, &mut partners);
    let ghost named = partners;
    if allow_renames {
        match_renamed(&before, &after, &before_masks, &after_masks, &mut partners);
    }
    proof {
        lemma_exhausted_grows(before, after, partners, named);
    }
    let ghost renamed = partners;
    match_nameless(&before, &after, &before_masks, &after_masks, &mut partners);
    proof {
        lemma_exhausted_grows(before, after, partners, renamed);
    }
    let ghost nameless = partners;
    decoration_matches(&before, &after, &before_masks, &after_masks, &mut partners);
    proof {
        lemma_exhausted_grows(before, after, partners, nameless);
        assert(is_child_matching(
            before,
            after,
            before_masks@,
            after_masks@,
            allow_renames,
            blank,
            named,
            renamed,
            nameless,
            partners,
        ));
    }
    partners
}

} // verus!

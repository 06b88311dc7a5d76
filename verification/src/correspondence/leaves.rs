//! Match the leaves of two paired units.

use crate::correspondence::contexts::{
    reparenting_of, unique_containment_reparenting, UnitContext,
};
use crate::correspondence::evidence::{
    is_reciprocal, reciprocal, reciprocal_unique_matches, Scored,
};
use crate::correspondence::facts::{flag, Facts};
use crate::alignment::{has_end, OrderedMatch};
use crate::correspondence::keys::{key_views, keys_agree, keys_exhausted, unordered_key_matches};
use crate::correspondence::partners::{
    all_claimed, free_at, indices_below, is_taken, lemma_end_is_paired, new_pairs_from, spread,
    Partners,
};
use crate::correspondence::ranks::{is_keyed_pass, lemma_keyed_pass, lists_keyed};
use crate::correspondence::units::lemma_kept_listed;
use crate::syntax::{parent_holds, ContentChannel, NodeId, SyntaxNode, SyntaxTree};
use std::collections::HashMap;
use vstd::prelude::*;

verus! {

/// Which leaves already have a link.
#[derive(Clone, Copy)]
pub struct Claimed<'a> {
    pub before: &'a Vec<Option<usize>>,
    pub after: &'a Vec<Option<usize>>,
}

impl Claimed<'_> {
    pub open spec fn fits(self, context: UnitContext<'_>) -> bool {
        self.before@.len() == context.scene.before_len() && self.after@.len()
            == context.scene.after_len()
    }
}

/// Partners share their content fingerprint.
pub open spec fn prints_agree(
    context: UnitContext<'_>,
    before: Seq<NodeId>,
    after: Seq<NodeId>,
    partners: Partners,
) -> bool {
    forall|i: int|
        0 <= i < before.len() ==> ((#[trigger] partners.before@[i]) matches Some(j)
            ==> context.scene.before.prints@[before[i] as int].full
            == context.scene.after.prints@[after[j as int] as int].full)
}

/// Parent that a before node asks for: zero for the unit, or one more than the partner of its
/// parent.
pub open spec fn desired_parent_code(context: UnitContext<'_>, before: int) -> Option<usize> {
    if before == context.before_unit {
        Some(0)
    } else {
        match context.scene.pair.before.nodes@[before].parent {
            Some(parent) => match context.links.partners.before@[parent as int] {
                Some(after) => Some((after + 1) as usize),
                None => None,
            },
            None => None,
        }
    }
}

/// Parent of an after node: zero for the unit, or one more than the parent.
pub open spec fn parent_code(context: UnitContext<'_>, after: int) -> Option<usize> {
    if after == context.after_unit {
        Some(0)
    } else {
        match context.scene.pair.after.nodes@[after].parent {
            Some(parent) => Some((parent + 1) as usize),
            None => None,
        }
    }
}

/// Two leaves that belong together for sure: undecorated, not trailing a sibling, equal in
/// content and field, and under parents that correspond.
pub open spec fn sure_leaves(context: UnitContext<'_>, before: int, after: int) -> bool {
    let old_leaf = context.scene.pair.before.nodes@[before];
    let new_leaf = context.scene.pair.after.nodes@[after];
    &&& old_leaf.decoration_owner is None && new_leaf.decoration_owner is None
    &&& !old_leaf.trails_sibling() && !new_leaf.trails_sibling()
    &&& context.scene.before.prints@[before].full == context.scene.after.prints@[after].full
    &&& context.scene.before.symbols@[before].slot == context.scene.after.symbols@[after].slot
    &&& desired_parent_code(context, before) == parent_code(context, after)
}

/// Two leaves that belong together for sure are never both left over.
pub open spec fn leaves_exhausted(
    context: UnitContext<'_>,
    before: Seq<NodeId>,
    after: Seq<NodeId>,
    partners: Partners,
) -> bool {
    forall|i: int, j: int|
        0 <= i < before.len() && 0 <= j < after.len() && sure_leaves(
            context,
            (#[trigger] before[i]) as int,
            (#[trigger] after[j]) as int,
        ) ==> is_taken(partners, i, j)
}

/// Both leaves decorate something, or neither does; and they stand in the same field under
/// corresponding parents, or a unique wrapper path connects their parents.
pub open spec fn is_placed(context: UnitContext<'_>, before: int, after: int) -> bool {
    &&& (context.scene.pair.before.nodes@[before].decoration_owner is Some) == (
    context.scene.pair.after.nodes@[after].decoration_owner is Some)
    &&& stands_alike(context, before, after)
}

/// Two leaves stand in the same field under corresponding parents, or a unique wrapper path
/// connects their parents.
pub open spec fn stands_alike(context: UnitContext<'_>, before: int, after: int) -> bool {
    ||| context.scene.before.symbols@[before].slot == context.scene.after.symbols@[after].slot
        && desired_parent_code(context, before) == parent_code(context, after)
    ||| reparenting_of(
        *context.scene.pair,
        context.links.partners.before@,
        context.links.partners.after@,
        before,
        after,
    ) is Some
}

/// All partners are placed.
pub open spec fn partners_placed(
    context: UnitContext<'_>,
    before: Seq<NodeId>,
    after: Seq<NodeId>,
    partners: Partners,
) -> bool {
    forall|i: int|
        0 <= i < before.len() ==> ((#[trigger] partners.before@[i]) matches Some(j) ==> is_placed(
            context,
            before[i] as int,
            after[j as int] as int,
        ))
}

/// Field and parent that a key names, and whether its leaf decorates something: the parent comes
/// third, or last where it may be missing; only undecorated leaves have keys of the second form.
pub open spec fn key_place(words: Seq<usize>, global: bool) -> (usize, Option<usize>, bool) {
    (
        words[1],
        if !global {
            Some(words[2])
        } else if words.len() == 6 {
            Some(words[5])
        } else {
            None
        },
        !global && words[6] == 1,
    )
}

/// Every key names the field and parent of its leaf.
spec fn places_before(
    context: UnitContext<'_>,
    keyed: Keyed,
    ids: Seq<NodeId>,
    global: bool,
) -> bool {
    forall|k: int|
        0 <= k < keyed.keys@.len() ==> key_place((#[trigger] keyed.keys@[k])@, global) == (
            context.scene.before.symbols@[ids[keyed.positions@[k] as int] as int].slot,
            desired_parent_code(context, ids[keyed.positions@[k] as int] as int),
            context.scene.pair.before.nodes@[ids[keyed.positions@[k] as int] as int].decoration_owner is Some,
        )
}

/// Every key names the field and parent of its leaf.
spec fn places_after(
    context: UnitContext<'_>,
    keyed: Keyed,
    ids: Seq<NodeId>,
    global: bool,
) -> bool {
    forall|k: int|
        0 <= k < keyed.keys@.len() ==> key_place((#[trigger] keyed.keys@[k])@, global) == (
            context.scene.after.symbols@[ids[keyed.positions@[k] as int] as int].slot,
            parent_code(context, ids[keyed.positions@[k] as int] as int),
            context.scene.pair.after.nodes@[ids[keyed.positions@[k] as int] as int].decoration_owner is Some,
        )
}

/// Key of a leaf that has lost its parent and trails no sibling.
pub open spec fn plain_words(print: usize, slot: usize, parent: Option<usize>) -> Seq<usize> {
    match parent {
        Some(parent) => seq![print, slot, 0, 0, 0, parent],
        None => seq![print, slot, 0, 0, 0],
    }
}

/// Key of a leaf under its parent that trails no sibling.
pub open spec fn leaf_words(
    print: usize,
    slot: usize,
    parent: usize,
    decorated: bool,
    owner: Option<NodeId>,
) -> Seq<usize> {
    let words = seq![
        print,
        slot,
        parent,
        0,
        0,
        0,
        if decorated {
            1usize
        } else {
            0usize
        },
    ];
    match owner {
        Some(owner) => words.push(owner),
        None => words,
    }
}

/// Owner that a before decoration asks for.
pub open spec fn desired_owner(context: UnitContext<'_>, before: int) -> Option<NodeId> {
    match context.scene.pair.before.nodes@[before].decoration_owner {
        None => None,
        Some(found) => if found == context.before_unit {
            Some(context.after_unit)
        } else {
            context.links.partners.before@[found as int]
        },
    }
}

/// The keys of before leaves: those whose parent is matched have one, which names content, field
/// and parent first; a leaf that trails no sibling adds only what it decorates.
pub open spec fn is_before_keying(
    context: UnitContext<'_>,
    ids: Seq<NodeId>,
    model: spec_fn(int) -> Option<Seq<usize>>,
) -> bool {
    forall|i: int|
        0 <= i < ids.len() ==> ((#[trigger] model(i)) is Some <==> desired_parent_code(
            context,
            ids[i] as int,
        ) is Some) && (model(i) matches Some(words) ==> words.len() >= 7 && words[0]
            == context.scene.before.prints@[ids[i] as int].full && key_place(words, false) == (
            context.scene.before.symbols@[ids[i] as int].slot,
            desired_parent_code(context, ids[i] as int),
            context.scene.pair.before.nodes@[ids[i] as int].decoration_owner is Some,
        ) && (!context.scene.pair.before.nodes@[ids[i] as int].trails_sibling() ==> words
            == leaf_words(
            context.scene.before.prints@[ids[i] as int].full,
            context.scene.before.symbols@[ids[i] as int].slot,
            desired_parent_code(context, ids[i] as int)->0,
            context.scene.pair.before.nodes@[ids[i] as int].decoration_owner is Some,
            desired_owner(context, ids[i] as int),
        )))
}

/// The keys of after leaves.
pub open spec fn is_after_keying(
    context: UnitContext<'_>,
    ids: Seq<NodeId>,
    model: spec_fn(int) -> Option<Seq<usize>>,
) -> bool {
    forall|i: int|
        0 <= i < ids.len() ==> ((#[trigger] model(i)) is Some <==> parent_code(
            context,
            ids[i] as int,
        ) is Some) && (model(i) matches Some(words) ==> words.len() >= 7 && words[0]
            == context.scene.after.prints@[ids[i] as int].full && key_place(words, false) == (
            context.scene.after.symbols@[ids[i] as int].slot,
            parent_code(context, ids[i] as int),
            context.scene.pair.after.nodes@[ids[i] as int].decoration_owner is Some,
        ) && (!context.scene.pair.after.nodes@[ids[i] as int].trails_sibling() ==> words
            == leaf_words(
            context.scene.after.prints@[ids[i] as int].full,
            context.scene.after.symbols@[ids[i] as int].slot,
            parent_code(context, ids[i] as int)->0,
            context.scene.pair.after.nodes@[ids[i] as int].decoration_owner is Some,
            context.scene.pair.after.nodes@[ids[i] as int].decoration_owner,
        )))
}

/// The keys of free undecorated before leaves of the unit: content and field, and the parent where
/// it is matched.
pub open spec fn is_open_before_keying(
    context: UnitContext<'_>,
    ids: Seq<NodeId>,
    partner: Seq<Option<usize>>,
    model: spec_fn(int) -> Option<Seq<usize>>,
) -> bool {
    forall|i: int|
        0 <= i < ids.len() ==> ((#[trigger] model(i)) is Some <==> partner[i] is None
            && context.scene.pair.before.nodes@[ids[i] as int].decoration_owner is None) && (
        model(i) matches Some(words) ==> words.len() >= 5 && words[0]
            == context.scene.before.prints@[ids[i] as int].full && key_place(words, true) == (
            context.scene.before.symbols@[ids[i] as int].slot,
            desired_parent_code(context, ids[i] as int),
            false,
        ) && (!context.scene.pair.before.nodes@[ids[i] as int].trails_sibling() ==> words
            == plain_words(
            context.scene.before.prints@[ids[i] as int].full,
            context.scene.before.symbols@[ids[i] as int].slot,
            desired_parent_code(context, ids[i] as int),
        )))
}

/// The keys of free undecorated after leaves of the unit.
pub open spec fn is_open_after_keying(
    context: UnitContext<'_>,
    ids: Seq<NodeId>,
    partner: Seq<Option<usize>>,
    model: spec_fn(int) -> Option<Seq<usize>>,
) -> bool {
    forall|i: int|
        0 <= i < ids.len() ==> ((#[trigger] model(i)) is Some <==> partner[i] is None
            && context.scene.pair.after.nodes@[ids[i] as int].decoration_owner is None) && (model(
            i,
        ) matches Some(words) ==> words.len() >= 5 && words[0]
            == context.scene.after.prints@[ids[i] as int].full && key_place(words, true) == (
            context.scene.after.symbols@[ids[i] as int].slot,
            parent_code(context, ids[i] as int),
            false,
        ) && (!context.scene.pair.after.nodes@[ids[i] as int].trails_sibling() ==> words
            == plain_words(
            context.scene.after.prints@[ids[i] as int].full,
            context.scene.after.symbols@[ids[i] as int].slot,
            parent_code(context, ids[i] as int),
        )))
}

/// Two free undecorated leaves of equal content whose parents a unique wrapper path connects.
pub open spec fn is_wrapping(
    context: UnitContext<'_>,
    before: Seq<NodeId>,
    after: Seq<NodeId>,
    partners: Partners,
    i: int,
    j: int,
) -> bool {
    &&& 0 <= i < before.len()
    &&& 0 <= j < after.len()
    &&& partners.before@[i] is None
    &&& partners.after@[j] is None
    &&& context.scene.pair.before.nodes@[before[i] as int].decoration_owner is None
    &&& context.scene.pair.after.nodes@[after[j] as int].decoration_owner is None
    &&& context.scene.before.prints@[before[i] as int].full
        == context.scene.after.prints@[after[j] as int].full
    &&& reparenting_of(
        *context.scene.pair,
        context.links.partners.before@,
        context.links.partners.after@,
        before[i] as int,
        after[j] as int,
    ) is Some
}

/// The two leaves are connected by a wrapper path, and with no others.
pub open spec fn is_only_wrapping(
    context: UnitContext<'_>,
    before: Seq<NodeId>,
    after: Seq<NodeId>,
    partners: Partners,
    i: int,
    j: int,
) -> bool {
    &&& is_wrapping(context, before, after, partners, i, j)
    &&& forall|other: int| #[trigger]
        is_wrapping(context, before, after, partners, i, other) ==> other == j
    &&& forall|other: int| #[trigger]
        is_wrapping(context, before, after, partners, other, j) ==> other == i
}

/// The pairs added are exactly the leaves that only a wrapper path connects with each other.
pub open spec fn is_wrapped_pass(
    context: UnitContext<'_>,
    before: Seq<NodeId>,
    after: Seq<NodeId>,
    earlier: Partners,
    later: Partners,
) -> bool {
    &&& later.grows(earlier)
    &&& forall|i: int|
        0 <= i < before.len() && (#[trigger] later.before@[i]) is Some && earlier.before@[i] is None
            ==> is_only_wrapping(context, before, after, earlier, i, later.before@[i]->0 as int)
    &&& forall|i: int, j: int| #[trigger]
        is_only_wrapping(context, before, after, earlier, i, j) ==> later.before@[i] == Some(
            j as usize,
        )
}

/// The order in which equal leaves are matched: under matched parents by occurrence; along unique
/// wrapper paths; and anywhere in the unit by occurrence.
pub open spec fn is_leaf_matching(
    context: UnitContext<'_>,
    before: Seq<NodeId>,
    after: Seq<NodeId>,
    left: spec_fn(int) -> Option<Seq<usize>>,
    right: spec_fn(int) -> Option<Seq<usize>>,
    open_left: spec_fn(int) -> Option<Seq<usize>>,
    open_right: spec_fn(int) -> Option<Seq<usize>>,
    blank: Partners,
    placed: Partners,
    wrapped: Partners,
    partners: Partners,
) -> bool {
    &&& forall|i: int| 0 <= i < blank.before@.len() ==> (#[trigger] blank.before@[i]) is None
    &&& is_before_keying(context, before, left)
    &&& is_after_keying(context, after, right)
    &&& is_keyed_pass(placed, blank, left, right)
    &&& is_wrapped_pass(context, before, after, placed, wrapped)
    &&& is_open_before_keying(context, before, wrapped.before@, open_left)
    &&& is_open_after_keying(context, after, wrapped.after@, open_right)
    &&& is_keyed_pass(partners, wrapped, open_left, open_right)
}

/// Equal leaves are matched step by step.
#[verifier::opaque]
pub open spec fn steps_match_leaves(
    context: UnitContext<'_>,
    before: Seq<NodeId>,
    after: Seq<NodeId>,
    partners: Partners,
) -> bool {
    exists|
        left: spec_fn(int) -> Option<Seq<usize>>,
        right: spec_fn(int) -> Option<Seq<usize>>,
        open_left: spec_fn(int) -> Option<Seq<usize>>,
        open_right: spec_fn(int) -> Option<Seq<usize>>,
        blank: Partners,
        placed: Partners,
        wrapped: Partners,
    | #[trigger]
        is_leaf_matching(
            context,
            before,
            after,
            left,
            right,
            open_left,
            open_right,
            blank,
            placed,
            wrapped,
            partners,
        )
}

/// Keys by position.
spec fn position_key(positions: Seq<usize>, keys: Seq<Seq<usize>>) -> spec_fn(int) -> Option<
    Seq<usize>,
> {
    |i: int|
        if 0 <= i <= usize::MAX && positions.contains(i as usize) {
            Some(keys[positions.index_of(i as usize)])
        } else {
            None
        }
}

/// The key at a listed position.
proof fn lemma_position_key(positions: Seq<usize>, keys: Seq<Seq<usize>>, k: int)
    requires
        spread(positions),
        0 <= k < positions.len(),
    ensures
        position_key(positions, keys)(positions[k] as int) == Some(keys[k]),
{
    let p = positions[k];
    assert(positions.contains(p));
    let x = positions.index_of(p);
    assert(0 <= x < positions.len() && positions[x] == p);
    if x < k {
        assert(positions[x] < positions[k]);
    } else if k < x {
        assert(positions[k] < positions[x]);
    }
}

/// Listed positions are listed with their keys.
proof fn lemma_positions_listed(positions: Seq<usize>, keys: Seq<Seq<usize>>, count: int)
    requires
        spread(positions),
        indices_below(positions, count),
        positions.len() == keys.len(),
    ensures
        lists_keyed(positions, keys, position_key(positions, keys), count),
{
    let model = position_key(positions, keys);
    assert forall|k: int| 0 <= k < positions.len() implies model((#[trigger] positions[k]) as int)
        == Some(keys[k]) by {
        lemma_position_key(positions, keys, k);
    }
}

/// Number of the parent that a before node asks for.
fn desired_after_parent(context: &UnitContext<'_>, before: NodeId) -> (code: Option<usize>)
    requires
        context.wf(),
        before < context.scene.before_len(),
    ensures
        code == desired_parent_code(*context, before as int),
{
    if before == context.before_unit {
        return Some(0);
    }
    assert(parent_holds(context.scene.pair.before.nodes@, before as int));
    match context.scene.pair.before.nodes[before].parent {
        Some(parent) => match context.links.partners.before[parent] {
            Some(after) => {
                assert(context.scene.pair.after.nodes.len() <= usize::MAX);
                Some(after + 1)
            },
            None => None,
        },
        None => None,
    }
}

/// Number of an after node's parent: zero for the unit, or one more than the parent.
fn after_parent(context: &UnitContext<'_>, after: NodeId) -> (code: Option<usize>)
    requires
        context.wf(),
        after < context.scene.after_len(),
    ensures
        code == parent_code(*context, after as int),
{
    if after == context.after_unit {
        return Some(0);
    }
    assert(parent_holds(context.scene.pair.after.nodes@, after as int));
    match context.scene.pair.after.nodes[after].parent {
        Some(parent) => {
            assert(context.scene.pair.after.nodes.len() <= usize::MAX);
            Some(parent + 1)
        },
        None => None,
    }
}

/// Whether a leaf of a unit is still without a link.
fn is_open_leaf(tree: &SyntaxTree, unit: NodeId, claimed: &Vec<Option<usize>>, id: NodeId) -> (open:
    bool)
    requires
        tree.wf(),
        tree.has_node(unit as int),
        tree.has_node(id as int),
        claimed@.len() == tree.nodes@.len(),
    ensures
        open == (tree.in_subtree(unit as int, id as int) && tree.nodes@[id as int].is_content_leaf()
            && claimed@[id as int] is None),
{
    tree.contains(unit, id) && tree.nodes[id].content_leaf() && claimed[id].is_none()
}

/// A content leaf of the unit that is still without a link.
pub open spec fn leaf_is_open(
    tree: SyntaxTree,
    unit: int,
    claimed: Seq<Option<usize>>,
    id: int,
) -> bool {
    tree.in_subtree(unit, id) && tree.nodes@[id].is_content_leaf() && claimed[id] is None
}

/// Words for the item that a before separator trails.
pub open spec fn before_trail(
    context: UnitContext<'_>,
    claimed: Seq<Option<usize>>,
    item: Option<NodeId>,
    atomic_only: bool,
) -> Seq<usize> {
    let tree = context.scene.pair.before;
    match item {
        Some(item) => if tree.nodes@[item as int].leaf is Some {
            if leaf_is_open(tree, context.before_unit as int, claimed, item as int) {
                seq![
                    2usize,
                    context.scene.before.symbols@[item as int].slot,
                    context.scene.before.prints@[item as int].full,
                ]
            } else if atomic_only {
                seq![0usize, 0, 0]
            } else {
                seq![3usize, 0, 0]
            }
        } else if atomic_only {
            seq![0usize, 0, 0]
        } else {
            match context.links.partners.before@[item as int] {
                Some(partner) => seq![1usize, partner, 0],
                None => seq![3usize, 0, 0],
            }
        },
        None => seq![0usize, 0, 0],
    }
}

/// Words for the item that an after separator trails.
pub open spec fn after_trail(
    context: UnitContext<'_>,
    claimed: Seq<Option<usize>>,
    item: Option<NodeId>,
    atomic_only: bool,
) -> Seq<usize> {
    let tree = context.scene.pair.after;
    match item {
        Some(item) => if tree.nodes@[item as int].leaf is Some {
            if leaf_is_open(tree, context.after_unit as int, claimed, item as int) {
                seq![
                    2usize,
                    context.scene.after.symbols@[item as int].slot,
                    context.scene.after.prints@[item as int].full,
                ]
            } else if atomic_only {
                seq![0usize, 0, 0]
            } else {
                seq![4usize, 0, 0]
            }
        } else if atomic_only {
            seq![0usize, 0, 0]
        } else {
            seq![1usize, item, 0]
        },
        None => seq![0usize, 0, 0],
    }
}

/// Separators under one parent have equal words just where their items go together: neither trails
/// one, their composite items are partners, or their leaf items are both free and agree in field
/// and content.
pub proof fn law_separators_go_with_their_items(
    context: UnitContext<'_>,
    claimed_before: Seq<Option<usize>>,
    claimed_after: Seq<Option<usize>>,
    left: Option<NodeId>,
    right: Option<NodeId>,
)
    ensures
        before_trail(context, claimed_before, left, false) == after_trail(
            context,
            claimed_after,
            right,
            false,
        ) <==> match (left, right) {
            (None, None) => true,
            (Some(left), Some(right)) => {
                let old_item = context.scene.pair.before.nodes@[left as int];
                let new_item = context.scene.pair.after.nodes@[right as int];
                if old_item.leaf is None && new_item.leaf is None {
                    context.links.partners.before@[left as int] == Some(right)
                } else {
                    old_item.leaf is Some && new_item.leaf is Some && leaf_is_open(
                        context.scene.pair.before,
                        context.before_unit as int,
                        claimed_before,
                        left as int,
                    ) && leaf_is_open(
                        context.scene.pair.after,
                        context.after_unit as int,
                        claimed_after,
                        right as int,
                    ) && context.scene.before.symbols@[left as int].slot
                        == context.scene.after.symbols@[right as int].slot
                        && context.scene.before.prints@[left as int].full
                        == context.scene.after.prints@[right as int].full
                }
            },
            _ => false,
        },
{
    let old_words = before_trail(context, claimed_before, left, false);
    let new_words = after_trail(context, claimed_after, right, false);
    assert(old_words.len() == 3 && new_words.len() == 3);
    if old_words[0] == new_words[0] && old_words[1] == new_words[1] && old_words[2]
        == new_words[2] {
        assert(old_words =~= new_words);
    }
}

/// Describe the item before a trailing delimiter by what it becomes in the after revision.
///
/// With `atomic_only`, composite items say nothing: they may acquire or lose wrappers.
fn push_before_delimiter_owner(
    context: &UnitContext<'_>,
    claimed: &Claimed<'_>,
    before: NodeId,
    atomic_only: bool,
    key: &mut Vec<usize>,
)
    requires
        context.wf(),
        claimed.fits(*context),
        before < context.scene.before_len(),
    ensures
        final(key)@.len() == old(key)@.len() + 3,
        forall|i: int| 0 <= i < old(key)@.len() ==> (#[trigger] final(key)@[i]) == old(key)@[i],
        !context.scene.pair.before.nodes@[before as int].trails_sibling() ==> final(key)@ == old(key)@ + seq![
            0usize,
            0,
            0,
        ],
        final(key)@ == old(key)@ + before_trail(
            *context,
            claimed.before@,
            context.scene.pair.before.trailed_item(before as int),
            atomic_only,
        ),
{
    let tree = &context.scene.pair.before;
    let mut tag: usize = 0;
    let mut first: usize = 0;
    let mut second: usize = 0;
    if let Some(owner) = tree.delimiter_owner(before) {
        if tree.nodes[owner].leaf.is_some() {
            if is_open_leaf(tree, context.before_unit, claimed.before, owner) {
                tag = 2;
                first = context.scene.before.symbols[owner].slot;
                second = context.scene.before.prints[owner].full;
            } else if !atomic_only {
                tag = 3;
            }
        } else if !atomic_only {
            match context.links.partners.before[owner] {
                Some(after) => {
                    tag = 1;
                    first = after;
                },
                None => {
                    tag = 3;
                },
            }
        }
    }
    key.push(tag);
    key.push(first);
    key.push(second);
    assert(!context.scene.pair.before.nodes@[before as int].trails_sibling() ==> key@ =~= old(key)@
        + seq![0usize, 0, 0]);
    assert(key@ =~= old(key)@ + before_trail(
        *context,
        claimed.before@,
        context.scene.pair.before.trailed_item(before as int),
        atomic_only,
    ));
}

/// Describe the item before a trailing delimiter of the after revision.
fn push_after_delimiter_owner(
    context: &UnitContext<'_>,
    claimed: &Claimed<'_>,
    after: NodeId,
    atomic_only: bool,
    key: &mut Vec<usize>,
)
    requires
        context.wf(),
        claimed.fits(*context),
        after < context.scene.after_len(),
    ensures
        final(key)@.len() == old(key)@.len() + 3,
        forall|i: int| 0 <= i < old(key)@.len() ==> (#[trigger] final(key)@[i]) == old(key)@[i],
        !context.scene.pair.after.nodes@[after as int].trails_sibling() ==> final(key)@ == old(key)@ + seq![
            0usize,
            0,
            0,
        ],
        final(key)@ == old(key)@ + after_trail(
            *context,
            claimed.after@,
            context.scene.pair.after.trailed_item(after as int),
            atomic_only,
        ),
{
    let tree = &context.scene.pair.after;
    let mut tag: usize = 0;
    let mut first: usize = 0;
    let mut second: usize = 0;
    if let Some(owner) = tree.delimiter_owner(after) {
        if tree.nodes[owner].leaf.is_some() {
            if is_open_leaf(tree, context.after_unit, claimed.after, owner) {
                tag = 2;
                first = context.scene.after.symbols[owner].slot;
                second = context.scene.after.prints[owner].full;
            } else if !atomic_only {
                tag = 4;
            }
        } else if !atomic_only {
            tag = 1;
            first = owner;
        }
    }
    key.push(tag);
    key.push(first);
    key.push(second);
    assert(!context.scene.pair.after.nodes@[after as int].trails_sibling() ==> key@ =~= old(key)@
        + seq![0usize, 0, 0]);
    assert(key@ =~= old(key)@ + after_trail(
        *context,
        claimed.after@,
        context.scene.pair.after.trailed_item(after as int),
        atomic_only,
    ));
}

/// Key of a leaf under its parent; content and field come first.
fn before_leaf_key(context: &UnitContext<'_>, claimed: &Claimed<'_>, before: NodeId) -> (key: Option<
    Vec<usize>,
>)
    requires
        context.wf(),
        claimed.fits(*context),
        before < context.scene.before_len(),
    ensures
        key matches Some(words) ==> words@.len() >= 7 && words@[0]
            == context.scene.before.prints@[before as int].full && key_place(words@, false) == (
            context.scene.before.symbols@[before as int].slot,
            desired_parent_code(*context, before as int),
            context.scene.pair.before.nodes@[before as int].decoration_owner is Some,
        ),
        key is Some <==> desired_parent_code(*context, before as int) is Some,
        key matches Some(words) ==> (!context.scene.pair.before.nodes@[before as int].trails_sibling()
            ==> words@ == leaf_words(
            context.scene.before.prints@[before as int].full,
            context.scene.before.symbols@[before as int].slot,
            desired_parent_code(*context, before as int)->0,
            context.scene.pair.before.nodes@[before as int].decoration_owner is Some,
            desired_owner(*context, before as int),
        )),
        key matches Some(words) ==> words@.subrange(3, 6) == before_trail(
            *context,
            claimed.before@,
            context.scene.pair.before.trailed_item(before as int),
            false,
        ),
{
    let parent = desired_after_parent(context, before);
    match parent {
        None => None,
        Some(parent) => {
            let mut words: Vec<usize> = Vec::new();
            words.push(context.scene.before.prints[before].full);
            words.push(context.scene.before.symbols[before].slot);
            words.push(parent);
            push_before_delimiter_owner(context, claimed, before, false, &mut words);
            let decorated = context.scene.pair.before.nodes[before].decoration_owner.is_some();
            words.push(if decorated { 1 } else { 0 });
            if let Some(owner) = context.desired_after_decoration_owner(before) {
                words.push(owner);
            }
            assert(!context.scene.pair.before.nodes@[before as int].trails_sibling() ==> words@
                =~= leaf_words(
                context.scene.before.prints@[before as int].full,
                context.scene.before.symbols@[before as int].slot,
                parent,
                decorated,
                desired_owner(*context, before as int),
            ));
            assert(words@.subrange(3, 6) =~= before_trail(
                *context,
                claimed.before@,
                context.scene.pair.before.trailed_item(before as int),
                false,
            ));
            Some(words)
        },
    }
}

/// Key of an after leaf under its parent.
fn after_leaf_key(context: &UnitContext<'_>, claimed: &Claimed<'_>, after: NodeId) -> (key: Option<
    Vec<usize>,
>)
    requires
        context.wf(),
        claimed.fits(*context),
        after < context.scene.after_len(),
    ensures
        key matches Some(words) ==> words@.len() >= 7 && words@[0]
            == context.scene.after.prints@[after as int].full && key_place(words@, false) == (
            context.scene.after.symbols@[after as int].slot,
            parent_code(*context, after as int),
            context.scene.pair.after.nodes@[after as int].decoration_owner is Some,
        ),
        key is Some <==> parent_code(*context, after as int) is Some,
        key matches Some(words) ==> (!context.scene.pair.after.nodes@[after as int].trails_sibling()
            ==> words@ == leaf_words(
            context.scene.after.prints@[after as int].full,
            context.scene.after.symbols@[after as int].slot,
            parent_code(*context, after as int)->0,
            context.scene.pair.after.nodes@[after as int].decoration_owner is Some,
            context.scene.pair.after.nodes@[after as int].decoration_owner,
        )),
        key matches Some(words) ==> words@.subrange(3, 6) == after_trail(
            *context,
            claimed.after@,
            context.scene.pair.after.trailed_item(after as int),
            false,
        ),
{
    let parent = after_parent(context, after);
    match parent {
        None => None,
        Some(parent) => {
            let mut words: Vec<usize> = Vec::new();
            words.push(context.scene.after.prints[after].full);
            words.push(context.scene.after.symbols[after].slot);
            words.push(parent);
            push_after_delimiter_owner(context, claimed, after, false, &mut words);
            let owner = context.scene.pair.after.nodes[after].decoration_owner;
            words.push(if owner.is_some() { 1 } else { 0 });
            if let Some(owner) = owner {
                words.push(owner);
            }
            assert(!context.scene.pair.after.nodes@[after as int].trails_sibling() ==> words@
                =~= leaf_words(
                context.scene.after.prints@[after as int].full,
                context.scene.after.symbols@[after as int].slot,
                parent,
                owner is Some,
                owner,
            ));
            assert(words@.subrange(3, 6) =~= after_trail(
                *context,
                claimed.after@,
                context.scene.pair.after.trailed_item(after as int),
                false,
            ));
            Some(words)
        },
    }
}

/// Key of a leaf that has lost its parent: content, field, and parent where it has one.
fn before_global_key(context: &UnitContext<'_>, claimed: &Claimed<'_>, before: NodeId) -> (words: Vec<
    usize,
>)
    requires
        context.wf(),
        claimed.fits(*context),
        before < context.scene.before_len(),
    ensures
        words@.len() >= 5,
        words@[0] == context.scene.before.prints@[before as int].full,
        key_place(words@, true) == (
            context.scene.before.symbols@[before as int].slot,
            desired_parent_code(*context, before as int),
            false,
        ),
        !context.scene.pair.before.nodes@[before as int].trails_sibling() ==> words@ == plain_words(
            context.scene.before.prints@[before as int].full,
            context.scene.before.symbols@[before as int].slot,
            desired_parent_code(*context, before as int),
        ),
        words@.subrange(2, 5) == before_trail(
            *context,
            claimed.before@,
            context.scene.pair.before.trailed_item(before as int),
            true,
        ),
{
    let mut words: Vec<usize> = Vec::new();
    words.push(context.scene.before.prints[before].full);
    words.push(context.scene.before.symbols[before].slot);
    push_before_delimiter_owner(context, claimed, before, true, &mut words);
    if let Some(parent) = desired_after_parent(context, before) {
        words.push(parent);
    }
    assert(!context.scene.pair.before.nodes@[before as int].trails_sibling() ==> words@ =~= plain_words(
        context.scene.before.prints@[before as int].full,
        context.scene.before.symbols@[before as int].slot,
        desired_parent_code(*context, before as int),
    ));
    assert(words@.subrange(2, 5) =~= before_trail(
        *context,
        claimed.before@,
        context.scene.pair.before.trailed_item(before as int),
        true,
    ));
    words
}

/// Key of an after leaf among all leaves of the unit.
fn after_global_key(context: &UnitContext<'_>, claimed: &Claimed<'_>, after: NodeId) -> (words: Vec<
    usize,
>)
    requires
        context.wf(),
        claimed.fits(*context),
        after < context.scene.after_len(),
    ensures
        words@.len() >= 5,
        words@[0] == context.scene.after.prints@[after as int].full,
        key_place(words@, true) == (
            context.scene.after.symbols@[after as int].slot,
            parent_code(*context, after as int),
            false,
        ),
        !context.scene.pair.after.nodes@[after as int].trails_sibling() ==> words@ == plain_words(
            context.scene.after.prints@[after as int].full,
            context.scene.after.symbols@[after as int].slot,
            parent_code(*context, after as int),
        ),
        words@.subrange(2, 5) == after_trail(
            *context,
            claimed.after@,
            context.scene.pair.after.trailed_item(after as int),
            true,
        ),
{
    let mut words: Vec<usize> = Vec::new();
    words.push(context.scene.after.prints[after].full);
    words.push(context.scene.after.symbols[after].slot);
    push_after_delimiter_owner(context, claimed, after, true, &mut words);
    if let Some(parent) = after_parent(context, after) {
        words.push(parent);
    }
    assert(!context.scene.pair.after.nodes@[after as int].trails_sibling() ==> words@ =~= plain_words(
        context.scene.after.prints@[after as int].full,
        context.scene.after.symbols@[after as int].slot,
        parent_code(*context, after as int),
    ));
    assert(words@.subrange(2, 5) =~= after_trail(
        *context,
        claimed.after@,
        context.scene.pair.after.trailed_item(after as int),
        true,
    ));
    words
}

/// Keyed positions of one leaf list.
struct Keyed {
    positions: Vec<usize>,
    keys: Vec<Vec<usize>>,
}

impl Keyed {
    /// Positions are below the bound, one key each, and each key starts with its leaf's print.
    spec fn describes(self, facts: Facts, ids: Seq<NodeId>) -> bool {
        &&& self.positions@.len() == self.keys@.len()
        &&& indices_below(self.positions@, ids.len() as int)
        &&& forall|k: int|
            0 <= k < self.keys@.len() ==> (#[trigger] self.keys@[k])@.len() >= 1
                && self.keys@[k]@[0] == facts.prints@[ids[self.positions@[k] as int] as int].full
    }
}

/// Two positions with equal keys are never both left over.
spec fn keys_taken(left: Keyed, right: Keyed, partners: Partners) -> bool {
    forall|x: int, y: int|
        0 <= x < left.keys@.len() && 0 <= y < right.keys@.len() && (#[trigger] left.keys@[x])@ == (
        #[trigger] right.keys@[y])@ ==> is_taken(
            partners,
            left.positions@[x] as int,
            right.positions@[y] as int,
        )
}

/// Claim the pairs that equal keys select.
fn claim_keyed(
    context: &UnitContext<'_>,
    before: &Vec<NodeId>,
    after: &Vec<NodeId>,
    left: Keyed,
    right: Keyed,
    partners: &mut Partners,
    Ghost(global): Ghost<bool>,
)
    requires
        context.wf(),
        left.describes(*context.scene.before, before@),
        right.describes(*context.scene.after, after@),
        old(partners).wf(before@.len() as int, after@.len() as int),
        prints_agree(*context, before@, after@, *old(partners)),
        places_before(*context, left, before@, global),
        places_after(*context, right, after@, global),
        partners_placed(*context, before@, after@, *old(partners)),
    ensures
        final(partners).wf(before@.len() as int, after@.len() as int),
        prints_agree(*context, before@, after@, *final(partners)),
        partners_placed(*context, before@, after@, *final(partners)),
        final(partners).grows(*old(partners)),
        spread(left.positions@) && spread(right.positions@) && free_at(
            old(partners).before@,
            left.positions@,
        ) && free_at(old(partners).after@, right.positions@) ==> keys_taken(
            left,
            right,
            *final(partners),
        ),
        spread(left.positions@) && spread(right.positions@) && free_at(
            old(partners).before@,
            left.positions@,
        ) && free_at(old(partners).after@, right.positions@) ==> is_keyed_pass(
            *final(partners),
            *old(partners),
            position_key(left.positions@, key_views(left.keys@)),
            position_key(right.positions@, key_views(right.keys@)),
        ),
{
    let ghost start = *partners;
    let Keyed { positions: before_positions, keys: before_keys } = left;
    let Keyed { positions: after_positions, keys: after_keys } = right;
    let ghost left_views = key_views(before_keys@);
    let ghost right_views = key_views(after_keys@);
    let ghost left_keys = before_keys@;
    let ghost right_keys = after_keys@;
    let matches = unordered_key_matches(before_keys, after_keys);
    partners.claim_all(&before_positions, &after_positions, &matches);
    proof {
        assert(before.len() <= usize::MAX && after.len() <= usize::MAX);
        assert(before_positions.len() <= usize::MAX && after_positions.len() <= usize::MAX);
        if spread(left.positions@) && spread(right.positions@) && free_at(
            start.before@,
            left.positions@,
        ) && free_at(start.after@, right.positions@) {
            lemma_positions_listed(left.positions@, left_views, before@.len() as int);
            lemma_positions_listed(right.positions@, right_views, after@.len() as int);
            lemma_keyed_pass(
                *partners,
                start,
                left.positions@,
                right.positions@,
                left_views,
                right_views,
                matches@,
                position_key(left.positions@, left_views),
                position_key(right.positions@, right_views),
            );
        }
        if spread(left.positions@) && spread(right.positions@) && free_at(
            start.before@,
            left.positions@,
        ) && free_at(start.after@, right.positions@) {
            assert forall|x: int, y: int|
                0 <= x < left.keys@.len() && 0 <= y < right.keys@.len() && (
                #[trigger] left.keys@[x])@ == (#[trigger] right.keys@[y])@ implies is_taken(
                *partners,
                left.positions@[x] as int,
                right.positions@[y] as int,
            ) by {
                assert(left_views[x] == right_views[y]);
                lemma_end_is_paired(
                    *partners,
                    left.positions@,
                    right.positions@,
                    matches@,
                    x,
                    y,
                );
            }
        }
        assert forall|i: int| 0 <= i < before@.len() implies ((
        #[trigger] partners.before@[i]) matches Some(j)
            ==> context.scene.before.prints@[before@[i] as int].full
            == context.scene.after.prints@[after@[j as int] as int].full && is_placed(
            *context,
            before@[i] as int,
            after@[j as int] as int,
        )) by {
            if partners.before@[i] is Some {
                if start.before@[i] is None {
                    let k = choose|k: int|
                        0 <= k < matches@.len() && before_positions@[(
                        #[trigger] matches@[k]).before as int] == i
                            && after_positions@[matches@[k].after as int] == partners.before@[i]->0;
                    let edge = matches@[k];
                    assert(left_views[edge.before as int] == right_views[edge.after as int]);
                    assert(left_views[edge.before as int] == left_keys[edge.before as int]@);
                    assert(right_views[edge.after as int] == right_keys[edge.after as int]@);
                    assert(before_positions@[edge.before as int] == i);
                    assert(after_positions@[edge.after as int] == partners.before@[i]->0);
                } else {
                    assert(partners.before@[i] == start.before@[i]);
                }
            }
        }
    }
}

/// Positions of unmatched, undecorated leaves.
fn open_positions(tree: &SyntaxTree, ids: &Vec<NodeId>, partner: &Vec<Option<usize>>) -> (positions:
    Vec<usize>)
    requires
        tree.wf(),
        indices_below(ids@, tree.nodes@.len() as int),
        partner@.len() == ids@.len(),
    ensures
        indices_below(positions@, ids@.len() as int),
        forall|k: int|
            0 <= k < positions@.len() ==> partner@[(#[trigger] positions@[k]) as int] is None
                && tree.nodes@[ids@[positions@[k] as int] as int].decoration_owner is None,
        spread(positions@),
        forall|i: int|
            0 <= i < ids@.len() && (#[trigger] partner@[i]) is None
                && tree.nodes@[ids@[i] as int].decoration_owner is None ==> positions@.contains(
                i as usize,
            ),
{
    let mut positions: Vec<usize> = Vec::new();
    let mut index: usize = 0;
    while index < ids.len()
        invariant
            index <= ids@.len(),
            indices_below(ids@, tree.nodes@.len() as int),
            partner@.len() == ids@.len(),
            indices_below(positions@, index as int),
            spread(positions@),
            forall|i: int|
                0 <= i < index && (#[trigger] partner@[i]) is None
                    && tree.nodes@[ids@[i] as int].decoration_owner is None ==> positions@.contains(
                    i as usize,
                ),
            forall|k: int|
                0 <= k < positions@.len() ==> partner@[(#[trigger] positions@[k]) as int] is None
                    && tree.nodes@[ids@[positions@[k] as int] as int].decoration_owner is None,
        decreases ids@.len() - index,
    {
        let ghost earlier = positions@;
        if partner[index].is_none() && tree.nodes[ids[index]].decoration_owner.is_none() {
            positions.push(index);
        }
        proof {
            lemma_kept_listed(earlier, positions@);
            if positions@.len() > earlier.len() {
                assert(positions@[positions@.len() - 1] == index);
            }
        }
        index += 1;
    }
    positions
}

/// Match leaves with equal content.
///
/// Leaves under matched parents are claimed first, so that wrapper recovery cannot steal them.
/// What a unique wrapper path carried along follows, then equal content anywhere in the unit.
pub fn exact_leaf_matches(
    context: &UnitContext<'_>,
    claimed: &Claimed<'_>,
    before: &Vec<NodeId>,
    after: &Vec<NodeId>,
) -> (partners: Partners)
    requires
        context.wf(),
        claimed.fits(*context),
        indices_below(before@, context.scene.before_len()),
        indices_below(after@, context.scene.after_len()),
    ensures
        partners.wf(before@.len() as int, after@.len() as int),
        prints_agree(*context, before@, after@, partners),
        partners_placed(*context, before@, after@, partners),
        leaves_exhausted(*context, before@, after@, partners),
        steps_match_leaves(*context, before@, after@, partners),
{
    let mut partners = Partners::new(before.len(), after.len());
    let ghost blank = partners;
    let left = keyed_before(context, claimed, before);
    let right = keyed_after(context, claimed, after);
    let ghost first_left = position_key(left.positions@, key_views(left.keys@));
    let ghost first_right = position_key(right.positions@, key_views(right.keys@));
    claim_keyed(context, before, after, left, right, &mut partners, Ghost(false));
    let ghost placed = partners;
    match_wrapped_leaves(context, before, after, &mut partners);
    let ghost wrapped = partners;
    let left = global_before(context, claimed, before, &partners.before);
    let right = global_after(context, claimed, after, &partners.after);
    let ghost old_keys = left;
    let ghost new_keys = right;
    claim_keyed(context, before, after, left, right, &mut partners, Ghost(true));
    proof {
        assert(before.len() <= usize::MAX && after.len() <= usize::MAX);
        reveal(steps_match_leaves);
        assert(is_leaf_matching(
            *context,
            before@,
            after@,
            first_left,
            first_right,
            position_key(old_keys.positions@, key_views(old_keys.keys@)),
            position_key(new_keys.positions@, key_views(new_keys.keys@)),
            blank,
            placed,
            wrapped,
            partners,
        ));
        assert forall|i: int, j: int|
            0 <= i < before@.len() && 0 <= j < after@.len() && sure_leaves(
                *context,
                (#[trigger] before@[i]) as int,
                (#[trigger] after@[j]) as int,
            ) implies is_taken(partners, i, j) by {
            if wrapped.before@[i] is None && wrapped.after@[j] is None {
                assert(old_keys.positions@.contains(i as usize));
                assert(new_keys.positions@.contains(j as usize));
                let x = choose|x: int|
                    0 <= x < old_keys.positions@.len() && old_keys.positions@[x] == i as usize;
                let y = choose|y: int|
                    0 <= y < new_keys.positions@.len() && new_keys.positions@[y] == j as usize;
                assert(old_keys.keys@[x]@ == new_keys.keys@[y]@);
            }
        }
    }
    partners
}

fn keyed_before(context: &UnitContext<'_>, claimed: &Claimed<'_>, ids: &Vec<NodeId>) -> (keyed: Keyed)
    requires
        context.wf(),
        claimed.fits(*context),
        indices_below(ids@, context.scene.before_len()),
    ensures
        keyed.describes(*context.scene.before, ids@),
        places_before(*context, keyed, ids@, false),
        spread(keyed.positions@),
        is_before_keying(*context, ids@, position_key(keyed.positions@, key_views(keyed.keys@))),
{
    let mut keyed = Keyed { positions: Vec::new(), keys: Vec::new() };
    let mut index: usize = 0;
    while index < ids.len()
        invariant
            context.wf(),
            claimed.fits(*context),
            indices_below(ids@, context.scene.before_len()),
            index <= ids@.len(),
            keyed.describes(*context.scene.before, ids@),
            places_before(*context, keyed, ids@, false),
            indices_below(keyed.positions@, index as int),
            spread(keyed.positions@),
            forall|i: int|
                0 <= i < index && desired_parent_code(*context, (#[trigger] ids@[i]) as int) is Some
                    ==> keyed.positions@.contains(i as usize),
            forall|k: int|
                0 <= k < keyed.positions@.len() ==> desired_parent_code(
                    *context,
                    ids@[(#[trigger] keyed.positions@[k]) as int] as int,
                ) is Some && keyed.keys@[k]@.len() >= 7 && (
                !context.scene.pair.before.nodes@[ids@[keyed.positions@[k] as int] as int].trails_sibling()
                    ==> keyed.keys@[k]@ == leaf_words(
                    context.scene.before.prints@[ids@[keyed.positions@[k] as int] as int].full,
                    context.scene.before.symbols@[ids@[keyed.positions@[k] as int] as int].slot,
                    desired_parent_code(*context, ids@[keyed.positions@[k] as int] as int)->0,
                    context.scene.pair.before.nodes@[ids@[keyed.positions@[k] as int] as int].decoration_owner is Some,
                    desired_owner(*context, ids@[keyed.positions@[k] as int] as int),
                )),
        decreases ids@.len() - index,
    {
        let ghost listed = keyed.positions@;
        if let Some(key) = before_leaf_key(context, claimed, ids[index]) {
            keyed.positions.push(index);
            keyed.keys.push(key);
            assert(keyed.positions@[listed.len() as int] == index);
        }
        proof {
            lemma_kept_listed(listed, keyed.positions@);
        }
        index += 1;
    }
    proof {
        assert(ids.len() <= usize::MAX);
        let views = key_views(keyed.keys@);
        let model = position_key(keyed.positions@, views);
        assert forall|i: int| 0 <= i < ids@.len() implies ((#[trigger] model(i)) is Some
            <==> desired_parent_code(*context, ids@[i] as int) is Some) && (model(i) matches Some(words)
            ==> words.len() >= 7 && words[0] == context.scene.before.prints@[ids@[i] as int].full
            && key_place(words, false) == (
            context.scene.before.symbols@[ids@[i] as int].slot,
            desired_parent_code(*context, ids@[i] as int),
            context.scene.pair.before.nodes@[ids@[i] as int].decoration_owner is Some,
        ) && (!context.scene.pair.before.nodes@[ids@[i] as int].trails_sibling() ==> words == leaf_words(
            context.scene.before.prints@[ids@[i] as int].full,
            context.scene.before.symbols@[ids@[i] as int].slot,
            desired_parent_code(*context, ids@[i] as int)->0,
            context.scene.pair.before.nodes@[ids@[i] as int].decoration_owner is Some,
            desired_owner(*context, ids@[i] as int),
        ))) by {
            if keyed.positions@.contains(i as usize) {
                let k = choose|k: int|
                    0 <= k < keyed.positions@.len() && keyed.positions@[k] == i as usize;
                lemma_position_key(keyed.positions@, views, k);
                assert(views[k] == keyed.keys@[k]@);
                assert(desired_parent_code(*context, ids@[keyed.positions@[k] as int] as int) is Some);
            }
        }
    }
    keyed
}

fn keyed_after(context: &UnitContext<'_>, claimed: &Claimed<'_>, ids: &Vec<NodeId>) -> (keyed: Keyed)
    requires
        context.wf(),
        claimed.fits(*context),
        indices_below(ids@, context.scene.after_len()),
    ensures
        keyed.describes(*context.scene.after, ids@),
        places_after(*context, keyed, ids@, false),
        spread(keyed.positions@),
        is_after_keying(*context, ids@, position_key(keyed.positions@, key_views(keyed.keys@))),
{
    let mut keyed = Keyed { positions: Vec::new(), keys: Vec::new() };
    let mut index: usize = 0;
    while index < ids.len()
        invariant
            context.wf(),
            claimed.fits(*context),
            indices_below(ids@, context.scene.after_len()),
            index <= ids@.len(),
            keyed.describes(*context.scene.after, ids@),
            places_after(*context, keyed, ids@, false),
            indices_below(keyed.positions@, index as int),
            spread(keyed.positions@),
            forall|i: int|
                0 <= i < index && parent_code(*context, (#[trigger] ids@[i]) as int) is Some
                    ==> keyed.positions@.contains(i as usize),
            forall|k: int|
                0 <= k < keyed.positions@.len() ==> parent_code(
                    *context,
                    ids@[(#[trigger] keyed.positions@[k]) as int] as int,
                ) is Some && keyed.keys@[k]@.len() >= 7 && (
                !context.scene.pair.after.nodes@[ids@[keyed.positions@[k] as int] as int].trails_sibling()
                    ==> keyed.keys@[k]@ == leaf_words(
                    context.scene.after.prints@[ids@[keyed.positions@[k] as int] as int].full,
                    context.scene.after.symbols@[ids@[keyed.positions@[k] as int] as int].slot,
                    parent_code(*context, ids@[keyed.positions@[k] as int] as int)->0,
                    context.scene.pair.after.nodes@[ids@[keyed.positions@[k] as int] as int].decoration_owner is Some,
                    context.scene.pair.after.nodes@[ids@[keyed.positions@[k] as int] as int].decoration_owner,
                )),
        decreases ids@.len() - index,
    {
        let ghost listed = keyed.positions@;
        if let Some(key) = after_leaf_key(context, claimed, ids[index]) {
            keyed.positions.push(index);
            keyed.keys.push(key);
            assert(keyed.positions@[listed.len() as int] == index);
        }
        proof {
            lemma_kept_listed(listed, keyed.positions@);
        }
        index += 1;
    }
    proof {
        assert(ids.len() <= usize::MAX);
        let views = key_views(keyed.keys@);
        let model = position_key(keyed.positions@, views);
        assert forall|i: int| 0 <= i < ids@.len() implies ((#[trigger] model(i)) is Some
            <==> parent_code(*context, ids@[i] as int) is Some) && (model(i) matches Some(words)
            ==> words.len() >= 7 && words[0] == context.scene.after.prints@[ids@[i] as int].full
            && key_place(words, false) == (
            context.scene.after.symbols@[ids@[i] as int].slot,
            parent_code(*context, ids@[i] as int),
            context.scene.pair.after.nodes@[ids@[i] as int].decoration_owner is Some,
        ) && (!context.scene.pair.after.nodes@[ids@[i] as int].trails_sibling() ==> words == leaf_words(
            context.scene.after.prints@[ids@[i] as int].full,
            context.scene.after.symbols@[ids@[i] as int].slot,
            parent_code(*context, ids@[i] as int)->0,
            context.scene.pair.after.nodes@[ids@[i] as int].decoration_owner is Some,
            context.scene.pair.after.nodes@[ids@[i] as int].decoration_owner,
        ))) by {
            if keyed.positions@.contains(i as usize) {
                let k = choose|k: int|
                    0 <= k < keyed.positions@.len() && keyed.positions@[k] == i as usize;
                lemma_position_key(keyed.positions@, views, k);
                assert(views[k] == keyed.keys@[k]@);
                assert(parent_code(*context, ids@[keyed.positions@[k] as int] as int) is Some);
            }
        }
    }
    keyed
}

fn global_before(
    context: &UnitContext<'_>,
    claimed: &Claimed<'_>,
    ids: &Vec<NodeId>,
    partner: &Vec<Option<usize>>,
) -> (keyed: Keyed)
    requires
        context.wf(),
        claimed.fits(*context),
        indices_below(ids@, context.scene.before_len()),
        partner@.len() == ids@.len(),
    ensures
        keyed.describes(*context.scene.before, ids@),
        places_before(*context, keyed, ids@, true),
        spread(keyed.positions@),
        free_at(partner@, keyed.positions@),
        forall|i: int|
            0 <= i < ids@.len() && (#[trigger] partner@[i]) is None
                && context.scene.pair.before.nodes@[ids@[i] as int].decoration_owner is None
                ==> keyed.positions@.contains(i as usize),
        forall|k: int|
            0 <= k < keyed.positions@.len()
                && !context.scene.pair.before.nodes@[ids@[(
            #[trigger] keyed.positions@[k]) as int] as int].trails_sibling() ==> keyed.keys@[k]@
                == plain_words(
                context.scene.before.prints@[ids@[keyed.positions@[k] as int] as int].full,
                context.scene.before.symbols@[ids@[keyed.positions@[k] as int] as int].slot,
                desired_parent_code(*context, ids@[keyed.positions@[k] as int] as int),
            ),
        is_open_before_keying(
            *context,
            ids@,
            partner@,
            position_key(keyed.positions@, key_views(keyed.keys@)),
        ),
{
    let positions = open_positions(&context.scene.pair.before, ids, partner);
    let mut keyed = Keyed { positions: Vec::new(), keys: Vec::new() };
    let mut index: usize = 0;
    while index < positions.len()
        invariant
            context.wf(),
            claimed.fits(*context),
            indices_below(ids@, context.scene.before_len()),
            indices_below(positions@, ids@.len() as int),
            index <= positions@.len(),
            forall|k: int|
                0 <= k < positions@.len() ==> context.scene.pair.before.nodes@[ids@[(
                #[trigger] positions@[k]) as int] as int].decoration_owner is None,
            keyed.describes(*context.scene.before, ids@),
            places_before(*context, keyed, ids@, true),
            keyed.positions@ == positions@.take(index as int),
            forall|k: int| 0 <= k < keyed.keys@.len() ==> (#[trigger] keyed.keys@[k])@.len() >= 5,
            forall|k: int|
                0 <= k < keyed.positions@.len()
                    && !context.scene.pair.before.nodes@[ids@[(
                #[trigger] keyed.positions@[k]) as int] as int].trails_sibling()
                    ==> keyed.keys@[k]@ == plain_words(
                    context.scene.before.prints@[ids@[keyed.positions@[k] as int] as int].full,
                    context.scene.before.symbols@[ids@[keyed.positions@[k] as int] as int].slot,
                    desired_parent_code(*context, ids@[keyed.positions@[k] as int] as int),
                ),
        decreases positions@.len() - index,
    {
        let position = positions[index];
        keyed.keys.push(before_global_key(context, claimed, ids[position]));
        keyed.positions.push(position);
        index += 1;
    }
    assert(positions@.take(positions@.len() as int) =~= positions@);
    proof {
        assert(ids.len() <= usize::MAX);
        let views = key_views(keyed.keys@);
        let model = position_key(keyed.positions@, views);
        assert forall|i: int| 0 <= i < ids@.len() implies ((#[trigger] model(i)) is Some
            <==> partner@[i] is None
            && context.scene.pair.before.nodes@[ids@[i] as int].decoration_owner is None) && (model(
            i,
        ) matches Some(words) ==> words.len() >= 5 && words[0]
            == context.scene.before.prints@[ids@[i] as int].full && key_place(words, true) == (
            context.scene.before.symbols@[ids@[i] as int].slot,
            desired_parent_code(*context, ids@[i] as int),
            false,
        ) && (!context.scene.pair.before.nodes@[ids@[i] as int].trails_sibling() ==> words
            == plain_words(
            context.scene.before.prints@[ids@[i] as int].full,
            context.scene.before.symbols@[ids@[i] as int].slot,
            desired_parent_code(*context, ids@[i] as int),
        ))) by {
            if keyed.positions@.contains(i as usize) {
                let k = choose|k: int|
                    0 <= k < keyed.positions@.len() && keyed.positions@[k] == i as usize;
                lemma_position_key(keyed.positions@, views, k);
                assert(views[k] == keyed.keys@[k]@);
                assert(keyed.positions@[k] == positions@[k]);
            }
        }
    }
    keyed
}

fn global_after(
    context: &UnitContext<'_>,
    claimed: &Claimed<'_>,
    ids: &Vec<NodeId>,
    partner: &Vec<Option<usize>>,
) -> (keyed: Keyed)
    requires
        context.wf(),
        claimed.fits(*context),
        indices_below(ids@, context.scene.after_len()),
        partner@.len() == ids@.len(),
    ensures
        keyed.describes(*context.scene.after, ids@),
        places_after(*context, keyed, ids@, true),
        spread(keyed.positions@),
        free_at(partner@, keyed.positions@),
        forall|i: int|
            0 <= i < ids@.len() && (#[trigger] partner@[i]) is None
                && context.scene.pair.after.nodes@[ids@[i] as int].decoration_owner is None
                ==> keyed.positions@.contains(i as usize),
        forall|k: int|
            0 <= k < keyed.positions@.len()
                && !context.scene.pair.after.nodes@[ids@[(
            #[trigger] keyed.positions@[k]) as int] as int].trails_sibling() ==> keyed.keys@[k]@
                == plain_words(
                context.scene.after.prints@[ids@[keyed.positions@[k] as int] as int].full,
                context.scene.after.symbols@[ids@[keyed.positions@[k] as int] as int].slot,
                parent_code(*context, ids@[keyed.positions@[k] as int] as int),
            ),
        is_open_after_keying(
            *context,
            ids@,
            partner@,
            position_key(keyed.positions@, key_views(keyed.keys@)),
        ),
{
    let positions = open_positions(&context.scene.pair.after, ids, partner);
    let mut keyed = Keyed { positions: Vec::new(), keys: Vec::new() };
    let mut index: usize = 0;
    while index < positions.len()
        invariant
            context.wf(),
            claimed.fits(*context),
            indices_below(ids@, context.scene.after_len()),
            indices_below(positions@, ids@.len() as int),
            index <= positions@.len(),
            forall|k: int|
                0 <= k < positions@.len() ==> context.scene.pair.after.nodes@[ids@[(
                #[trigger] positions@[k]) as int] as int].decoration_owner is None,
            keyed.describes(*context.scene.after, ids@),
            places_after(*context, keyed, ids@, true),
            keyed.positions@ == positions@.take(index as int),
            forall|k: int| 0 <= k < keyed.keys@.len() ==> (#[trigger] keyed.keys@[k])@.len() >= 5,
            forall|k: int|
                0 <= k < keyed.positions@.len()
                    && !context.scene.pair.after.nodes@[ids@[(
                #[trigger] keyed.positions@[k]) as int] as int].trails_sibling()
                    ==> keyed.keys@[k]@ == plain_words(
                    context.scene.after.prints@[ids@[keyed.positions@[k] as int] as int].full,
                    context.scene.after.symbols@[ids@[keyed.positions@[k] as int] as int].slot,
                    parent_code(*context, ids@[keyed.positions@[k] as int] as int),
                ),
        decreases positions@.len() - index,
    {
        let position = positions[index];
        keyed.keys.push(after_global_key(context, claimed, ids[position]));
        keyed.positions.push(position);
        index += 1;
    }
    assert(positions@.take(positions@.len() as int) =~= positions@);
    proof {
        assert(ids.len() <= usize::MAX);
        let views = key_views(keyed.keys@);
        let model = position_key(keyed.positions@, views);
        assert forall|i: int| 0 <= i < ids@.len() implies ((#[trigger] model(i)) is Some
            <==> partner@[i] is None
            && context.scene.pair.after.nodes@[ids@[i] as int].decoration_owner is None) && (model(
            i,
        ) matches Some(words) ==> words.len() >= 5 && words[0]
            == context.scene.after.prints@[ids@[i] as int].full && key_place(words, true) == (
            context.scene.after.symbols@[ids@[i] as int].slot,
            parent_code(*context, ids@[i] as int),
            false,
        ) && (!context.scene.pair.after.nodes@[ids@[i] as int].trails_sibling() ==> words
            == plain_words(
            context.scene.after.prints@[ids@[i] as int].full,
            context.scene.after.symbols@[ids@[i] as int].slot,
            parent_code(*context, ids@[i] as int),
        ))) by {
            if keyed.positions@.contains(i as usize) {
                let k = choose|k: int|
                    0 <= k < keyed.positions@.len() && keyed.positions@[k] == i as usize;
                lemma_position_key(keyed.positions@, views, k);
                assert(views[k] == keyed.keys@[k]@);
                assert(keyed.positions@[k] == positions@[k]);
            }
        }
    }
    keyed
}

/// Pair leaves of equal content that exactly one wrapper path connects.
fn match_wrapped_leaves(
    context: &UnitContext<'_>,
    before: &Vec<NodeId>,
    after: &Vec<NodeId>,
    partners: &mut Partners,
)
    requires
        context.wf(),
        indices_below(before@, context.scene.before_len()),
        indices_below(after@, context.scene.after_len()),
        old(partners).wf(before@.len() as int, after@.len() as int),
        prints_agree(*context, before@, after@, *old(partners)),
        partners_placed(*context, before@, after@, *old(partners)),
    ensures
        final(partners).wf(before@.len() as int, after@.len() as int),
        prints_agree(*context, before@, after@, *final(partners)),
        partners_placed(*context, before@, after@, *final(partners)),
        final(partners).grows(*old(partners)),
        is_wrapped_pass(*context, before@, after@, *old(partners), *final(partners)),
{
    let ghost start = *partners;
    let before_open = open_positions(&context.scene.pair.before, before, &partners.before);
    let after_open = open_positions(&context.scene.pair.after, after, &partners.after);
    let groups = positions_by_print(context.scene.after, after, &after_open);
    let mut scores: Vec<Scored> = Vec::new();
    let mut index: usize = 0;
    while index < before_open.len()
        invariant
            context.wf(),
            indices_below(before@, context.scene.before_len()),
            indices_below(after@, context.scene.after_len()),
            indices_below(before_open@, before@.len() as int),
            index <= before_open@.len(),
            start == *partners,
            start.wf(before@.len() as int, after@.len() as int),
            before.len() <= usize::MAX,
            after.len() <= usize::MAX,
            spread(before_open@),
            forall|k: int|
                0 <= k < before_open@.len() ==> start.before@[(
                #[trigger] before_open@[k]) as int] is None,
            forall|k: int|
                0 <= k < after_open@.len() ==> start.after@[(
                #[trigger] after_open@[k]) as int] is None,
            forall|j: int|
                0 <= j < after@.len() && (#[trigger] start.after@[j]) is None
                    && context.scene.pair.after.nodes@[after@[j] as int].decoration_owner is None
                    ==> after_open@.contains(j as usize),
            groups_full(groups@, *context.scene.after, after@, after_open@),
            lists_wrappings(
                *context,
                before@,
                after@,
                start,
                before_open@,
                index as int,
                scores@,
            ),
            groups_by_print(groups@, *context.scene.after, after@, after_open@),
            forall|k: int|
                0 <= k < before_open@.len() ==> context.scene.pair.before.nodes@[before@[(
                #[trigger] before_open@[k]) as int] as int].decoration_owner is None,
            forall|k: int|
                0 <= k < after_open@.len() ==> context.scene.pair.after.nodes@[after@[(
                #[trigger] after_open@[k]) as int] as int].decoration_owner is None,
            forall|k: int|
                0 <= k < scores@.len() ==> (#[trigger] scores@[k]).before < before@.len()
                    && scores@[k].after < after@.len() && is_placed(
                        *context,
                        before@[scores@[k].before as int] as int,
                        after@[scores@[k].after as int] as int,
                    )
                    && context.scene.before.prints@[before@[scores@[k].before as int] as int].full
                    == context.scene.after.prints@[after@[scores@[k].after as int] as int].full,
        decreases before_open@.len() - index,
    {
        let left = before_open[index];
        assert(before_open@[index as int] == left);
        let print = context.scene.before.prints[before[left]].full;
        let ghost outer_scores = scores@;
        if let Some(group) = groups.get(&print) {
            let mut member: usize = 0;
            while member < group.len()
                invariant
                    context.wf(),
                    start.wf(before@.len() as int, after@.len() as int),
                    start.before@[left as int] is None,
                    forall|k: int|
                        0 <= k < after_open@.len() ==> start.after@[(
                        #[trigger] after_open@[k]) as int] is None,
                    spread(group@),
                    lists_member_wrappings(
                        *context,
                        before@,
                        after@,
                        start,
                        outer_scores,
                        left,
                        group@,
                        member as int,
                        scores@,
                    ),
                    indices_below(before@, context.scene.before_len()),
                    indices_below(after@, context.scene.after_len()),
                    left < before@.len(),
                    context.scene.pair.before.nodes@[before@[left as int] as int].decoration_owner is None,
                    forall|k: int|
                        0 <= k < after_open@.len() ==> context.scene.pair.after.nodes@[after@[(
                        #[trigger] after_open@[k]) as int] as int].decoration_owner is None,
                    print == context.scene.before.prints@[before@[left as int] as int].full,
                    member <= group@.len(),
                    forall|m: int|
                        0 <= m < group@.len() ==> (#[trigger] group@[m]) < after@.len()
                            && after_open@.contains(group@[m]) && context.scene.after.prints@[after@[group@[m] as int] as int].full
                            == print,
                    forall|k: int|
                        0 <= k < scores@.len() ==> (#[trigger] scores@[k]).before < before@.len()
                            && scores@[k].after < after@.len() && is_placed(
                        *context,
                        before@[scores@[k].before as int] as int,
                        after@[scores@[k].after as int] as int,
                    )
                            && context.scene.before.prints@[before@[scores@[k].before as int] as int].full
                            == context.scene.after.prints@[after@[scores@[k].after as int] as int].full,
                decreases group@.len() - member,
            {
                let right = group[member];
                let ghost member_scores = scores@;
                assert(group@[member as int] == right);
                proof {
                    let at = choose|at: int|
                        0 <= at < after_open@.len() && after_open@[at] == right;
                    assert(context.scene.pair.after.nodes@[after@[after_open@[at] as int] as int].decoration_owner is None);
                }
                if unique_containment_reparenting(
                    context.scene.pair,
                    &context.links.partners.before,
                    &context.links.partners.after,
                    before[left],
                    after[right],
                ).is_some() {
                    scores.push(Scored { before: left, after: right, score: 1 });
                }
                proof {
                    lemma_member_wrapping(
                        *context,
                        before@,
                        after@,
                        start,
                        outer_scores,
                        left,
                        group@,
                        member as int,
                        member_scores,
                        scores@,
                    );
                }
                member += 1;
            }
        }
        proof {
            lemma_wrappings_listed(
                *context,
                before@,
                after@,
                start,
                before_open@,
                after_open@,
                index as int,
                groups@,
                outer_scores,
                scores@,
            );
        }
        index += 1;
    }
    let matches = reciprocal_unique_matches(&scores, before.len(), after.len(), 0);
    proof {
        lemma_only_wrappings(*context, before@, after@, start, before_open@, scores@, matches@);
    }
    let mut position: usize = 0;
    while position < matches.len()
        invariant
            partners.wf(before@.len() as int, after@.len() as int),
            prints_agree(*context, before@, after@, *partners),
            partners_placed(*context, before@, after@, *partners),
            partners.grows(start),
            start.wf(before@.len() as int, after@.len() as int),
            forall|k: int|
                0 <= k < matches@.len() ==> is_only_wrapping(
                    *context,
                    before@,
                    after@,
                    start,
                    (#[trigger] matches@[k]).before as int,
                    matches@[k].after as int,
                ),
            forall|d: int, e: int|
                0 <= d < e < matches@.len() ==> (#[trigger] matches@[d]).before < (
                #[trigger] matches@[e]).before,
            forall|k: int|
                0 <= k < position ==> partners.before@[(#[trigger] matches@[k]).before as int]
                    == Some(matches@[k].after),
            forall|i: int|
                0 <= i < before@.len() && (#[trigger] partners.before@[i]) is Some
                    && start.before@[i] is None ==> is_only_wrapping(
                    *context,
                    before@,
                    after@,
                    start,
                    i,
                    partners.before@[i]->0 as int,
                ) && exists|k: int|
                    0 <= k < position && (#[trigger] matches@[k]).before == i,
            position <= matches@.len(),
            forall|e: int|
                0 <= e < matches@.len() ==> is_reciprocal(scores@, 0, #[trigger] matches@[e]),
            forall|k: int|
                0 <= k < scores@.len() ==> (#[trigger] scores@[k]).before < before@.len()
                    && scores@[k].after < after@.len() && is_placed(
                        *context,
                        before@[scores@[k].before as int] as int,
                        after@[scores@[k].after as int] as int,
                    )
                    && context.scene.before.prints@[before@[scores@[k].before as int] as int].full
                    == context.scene.after.prints@[after@[scores@[k].after as int] as int].full,
        decreases matches@.len() - position,
    {
        let edge = matches[position];
        assert(is_reciprocal(scores@, 0, matches@[position as int]));
        let ghost earlier = *partners;
        proof {
            assert(is_only_wrapping(
                *context,
                before@,
                after@,
                start,
                matches@[position as int].before as int,
                matches@[position as int].after as int,
            ));
            if earlier.before@[edge.before as int] is Some {
                let k = choose|k: int|
                    0 <= k < position && (#[trigger] matches@[k]).before == edge.before;
                assert(matches@[k].before < matches@[position as int].before);
            }
            if earlier.after@[edge.after as int] is Some {
                let i = earlier.after@[edge.after as int]->0 as int;
                assert(earlier.before@[i] == Some(edge.after));
                assert(start.before@[i] is None) by {
                    if start.before@[i] is Some {
                        assert(earlier.before@[i] == start.before@[i]);
                        assert(start.after@[edge.after as int] == Some(i as usize));
                    }
                }
                assert(is_only_wrapping(*context, before@, after@, start, i, edge.after as int));
                assert(is_wrapping(*context, before@, after@, start, i, edge.after as int));
                assert(i == edge.before);
                let k = choose|k: int|
                    0 <= k < position && (#[trigger] matches@[k]).before == i;
                assert(matches@[k].before < matches@[position as int].before);
            }
        }
        let claimed = partners.claim(edge.before, edge.after);
        assert(claimed);
        proof {
            assert forall|i: int|
                0 <= i < before@.len() && (#[trigger] partners.before@[i]) is Some
                    && start.before@[i] is None implies is_only_wrapping(
                *context,
                before@,
                after@,
                start,
                i,
                partners.before@[i]->0 as int,
            ) && exists|k: int|
                0 <= k < position + 1 && (#[trigger] matches@[k]).before == i by {
                if i == edge.before {
                    assert(matches@[position as int].before == i);
                } else {
                    assert(partners.before@[i] == earlier.before@[i]);
                    let k = choose|k: int| 0 <= k < position && (#[trigger] matches@[k]).before == i;
                    assert(matches@[k].before == i);
                }
            }
            crate::correspondence::children::lemma_grows_chain(*partners, earlier, start);
        }
        position += 1;
    }
    proof {
        assert forall|i: int, j: int| #[trigger]
            is_only_wrapping(*context, before@, after@, start, i, j) implies partners.before@[i]
            == Some(j as usize) by {
            let edge = OrderedMatch { before: i as usize, after: j as usize };
            assert(matches@.contains(edge));
            let k = choose|k: int| 0 <= k < matches@.len() && matches@[k] == edge;
            assert(partners.before@[matches@[k].before as int] == Some(matches@[k].after));
        }
    }
}

/// The scores list pairs in order, each with score one.
spec fn are_ordered_scores(scores: Seq<Scored>) -> bool {
    &&& forall|k: int| 0 <= k < scores.len() ==> (#[trigger] scores[k]).score == 1
    &&& forall|k: int, l: int|
        0 <= k < l < scores.len() ==> (#[trigger] scores[k]).before < (#[trigger] scores[l]).before
            || scores[k].before == scores[l].before && scores[k].after < scores[l].after
}

/// The pair is scored.
spec fn is_scored(scores: Seq<Scored>, i: int, j: int) -> bool {
    exists|k: int|
        0 <= k < scores.len() && (#[trigger] scores[k]).before == i && scores[k].after == j
}

/// The scores are exactly the wrappings of the first open leaves.
spec fn lists_wrappings(
    context: UnitContext<'_>,
    before: Seq<NodeId>,
    after: Seq<NodeId>,
    partners: Partners,
    before_open: Seq<usize>,
    end: int,
    scores: Seq<Scored>,
) -> bool {
    &&& are_ordered_scores(scores)
    &&& forall|k: int|
        0 <= k < scores.len() ==> is_wrapping(
            context,
            before,
            after,
            partners,
            (#[trigger] scores[k]).before as int,
            scores[k].after as int,
        ) && exists|x: int| 0 <= x < end && #[trigger] before_open[x] == scores[k].before
    &&& forall|x: int, j: int|
        0 <= x < end && #[trigger] is_wrapping(
            context,
            before,
            after,
            partners,
            before_open[x] as int,
            j,
        ) ==> is_scored(scores, before_open[x] as int, j)
}

/// The scores grew by the wrappings of one leaf with the first members of a group.
spec fn lists_member_wrappings(
    context: UnitContext<'_>,
    before: Seq<NodeId>,
    after: Seq<NodeId>,
    partners: Partners,
    earlier: Seq<Scored>,
    left: usize,
    group: Seq<usize>,
    end: int,
    scores: Seq<Scored>,
) -> bool {
    &&& earlier.len() <= scores.len()
    &&& forall|k: int| 0 <= k < earlier.len() ==> (#[trigger] scores[k]) == earlier[k]
    &&& forall|k: int|
        earlier.len() <= k < scores.len() ==> (#[trigger] scores[k]).before == left
            && scores[k].score == 1 && is_wrapping(
            context,
            before,
            after,
            partners,
            left as int,
            scores[k].after as int,
        ) && exists|m: int| 0 <= m < end && #[trigger] group[m] == scores[k].after
    &&& forall|k: int, l: int|
        earlier.len() <= k < l < scores.len() ==> (#[trigger] scores[k]).after < (
        #[trigger] scores[l]).after
    &&& forall|m: int|
        0 <= m < end && is_wrapping(
            context,
            before,
            after,
            partners,
            left as int,
            (#[trigger] group[m]) as int,
        ) ==> is_scored(scores, left as int, group[m] as int)
}

/// One more member.
proof fn lemma_member_wrapping(
    context: UnitContext<'_>,
    before: Seq<NodeId>,
    after: Seq<NodeId>,
    partners: Partners,
    earlier: Seq<Scored>,
    left: usize,
    group: Seq<usize>,
    member: int,
    fewer: Seq<Scored>,
    scores: Seq<Scored>,
)
    requires
        0 <= member < group.len(),
        spread(group),
        lists_member_wrappings(
            context,
            before,
            after,
            partners,
            earlier,
            left,
            group,
            member,
            fewer,
        ),
        if is_wrapping(context, before, after, partners, left as int, group[member] as int) {
            scores == fewer.push(Scored { before: left, after: group[member], score: 1 })
        } else {
            scores == fewer
        },
    ensures
        lists_member_wrappings(
            context,
            before,
            after,
            partners,
            earlier,
            left,
            group,
            member + 1,
            scores,
        ),
{
    assert forall|k: int| earlier.len() <= k < scores.len() implies (#[trigger] scores[k]).before
        == left && scores[k].score == 1 && is_wrapping(
        context,
        before,
        after,
        partners,
        left as int,
        scores[k].after as int,
    ) && exists|m: int| 0 <= m < member + 1 && #[trigger] group[m] == scores[k].after by {
        if k < fewer.len() {
            assert(scores[k] == fewer[k]);
            let m = choose|m: int| 0 <= m < member && #[trigger] group[m] == fewer[k].after;
            assert(group[m] == scores[k].after);
        } else {
            assert(group[member] == scores[k].after);
        }
    }
    assert forall|k: int, l: int| earlier.len() <= k < l < scores.len() implies (
    #[trigger] scores[k]).after < (#[trigger] scores[l]).after by {
        assert(scores[k] == fewer[k]);
        if l < fewer.len() {
            assert(scores[l] == fewer[l]);
        } else {
            let m = choose|m: int| 0 <= m < member && #[trigger] group[m] == fewer[k].after;
            assert(group[m] < group[member]);
        }
    }
    assert forall|m: int|
        0 <= m < member + 1 && is_wrapping(
            context,
            before,
            after,
            partners,
            left as int,
            (#[trigger] group[m]) as int,
        ) implies is_scored(scores, left as int, group[m] as int) by {
        if m < member {
            assert(is_scored(fewer, left as int, group[m] as int));
            let k = choose|k: int|
                0 <= k < fewer.len() && (#[trigger] fewer[k]).before == left && fewer[k].after
                    == group[m];
            assert(scores[k] == fewer[k]);
        } else {
            assert(scores[fewer.len() as int].after == group[m]);
        }
    }
}

/// One more open leaf.
proof fn lemma_wrappings_listed(
    context: UnitContext<'_>,
    before: Seq<NodeId>,
    after: Seq<NodeId>,
    partners: Partners,
    before_open: Seq<usize>,
    after_open: Seq<usize>,
    index: int,
    groups: Map<usize, Vec<usize>>,
    earlier: Seq<Scored>,
    scores: Seq<Scored>,
)
    requires
        0 <= index < before_open.len(),
        spread(before_open),
        after.len() <= usize::MAX,
        lists_wrappings(context, before, after, partners, before_open, index, earlier),
        groups_full(groups, *context.scene.after, after, after_open),
        forall|j: int|
            0 <= j < after.len() && (#[trigger] partners.after@[j]) is None
                && context.scene.pair.after.nodes@[after[j] as int].decoration_owner is None
                ==> after_open.contains(j as usize),
        ({
            let print = context.scene.before.prints@[before[before_open[index] as int] as int].full;
            if groups.contains_key(print) {
                lists_member_wrappings(
                    context,
                    before,
                    after,
                    partners,
                    earlier,
                    before_open[index],
                    groups[print]@,
                    groups[print]@.len() as int,
                    scores,
                )
            } else {
                scores == earlier
            }
        }),
    ensures
        lists_wrappings(context, before, after, partners, before_open, index + 1, scores),
{
    let left = before_open[index];
    let print = context.scene.before.prints@[before[left as int] as int].full;
    assert forall|k: int| 0 <= k < earlier.len() implies (#[trigger] earlier[k]).before < left by {
        let x = choose|x: int| 0 <= x < index && #[trigger] before_open[x] == earlier[k].before;
        assert(before_open[x] < before_open[index]);
    }
    assert forall|k: int| 0 <= k < scores.len() implies is_wrapping(
        context,
        before,
        after,
        partners,
        (#[trigger] scores[k]).before as int,
        scores[k].after as int,
    ) && exists|x: int| 0 <= x < index + 1 && #[trigger] before_open[x] == scores[k].before by {
        if k < earlier.len() {
            assert(scores[k] == earlier[k]);
            let x = choose|x: int| 0 <= x < index && #[trigger] before_open[x] == earlier[k].before;
            assert(before_open[x] == scores[k].before);
        } else {
            assert(before_open[index] == scores[k].before);
        }
    }
    assert forall|k: int, l: int| 0 <= k < l < scores.len() implies (#[trigger] scores[k]).before
        < (#[trigger] scores[l]).before || scores[k].before == scores[l].before && scores[k].after
        < scores[l].after by {
        if l < earlier.len() {
            assert(scores[k] == earlier[k] && scores[l] == earlier[l]);
        } else if k < earlier.len() {
            assert(scores[k] == earlier[k]);
        }
    }
    assert forall|k: int| 0 <= k < scores.len() implies (#[trigger] scores[k]).score == 1 by {
        if k < earlier.len() {
            assert(scores[k] == earlier[k]);
        }
    }
    assert forall|x: int, j: int|
        0 <= x < index + 1 && #[trigger] is_wrapping(
            context,
            before,
            after,
            partners,
            before_open[x] as int,
            j,
        ) implies is_scored(scores, before_open[x] as int, j) by {
        if x < index {
            assert(is_scored(earlier, before_open[x] as int, j));
            let k = choose|k: int|
                0 <= k < earlier.len() && (#[trigger] earlier[k]).before == before_open[x]
                    && earlier[k].after == j;
            assert(scores[k] == earlier[k]);
        } else {
            assert(after_open.contains(j as usize));
            assert(groups.contains_key(print) && groups[print]@.contains(j as usize));
            let m = choose|m: int| 0 <= m < groups[print]@.len() && groups[print]@[m] == j as usize;
            assert(is_scored(scores, left as int, groups[print]@[m] as int));
        }
    }
}

/// Reciprocal entries of the scores are the pairs that wrap only each other.
proof fn lemma_only_wrappings(
    context: UnitContext<'_>,
    before: Seq<NodeId>,
    after: Seq<NodeId>,
    partners: Partners,
    before_open: Seq<usize>,
    scores: Seq<Scored>,
    matches: Seq<OrderedMatch>,
)
    requires
        before.len() <= usize::MAX,
        after.len() <= usize::MAX,
        lists_wrappings(
            context,
            before,
            after,
            partners,
            before_open,
            before_open.len() as int,
            scores,
        ),
        forall|i: int|
            0 <= i < before.len() && (#[trigger] partners.before@[i]) is None
                && context.scene.pair.before.nodes@[before[i] as int].decoration_owner is None
                ==> before_open.contains(i as usize),
        forall|e: int|
            0 <= e < matches.len() ==> is_reciprocal(scores, 0, #[trigger] matches[e]),
        forall|k: int|
            0 <= k < scores.len() && #[trigger] reciprocal(scores, 0, k) ==> matches.contains(
                OrderedMatch { before: scores[k].before, after: scores[k].after },
            ),
    ensures
        forall|k: int|
            0 <= k < matches.len() ==> is_only_wrapping(
                context,
                before,
                after,
                partners,
                (#[trigger] matches[k]).before as int,
                matches[k].after as int,
            ),
        forall|i: int, j: int| #[trigger]
            is_only_wrapping(context, before, after, partners, i, j) ==> matches.contains(
                OrderedMatch { before: i as usize, after: j as usize },
            ),
{
    assert forall|i: int, j: int| #[trigger]
        is_wrapping(context, before, after, partners, i, j) implies is_scored(scores, i, j) by {
        assert(before_open.contains(i as usize));
        let x = choose|x: int| 0 <= x < before_open.len() && before_open[x] == i as usize;
        assert(is_wrapping(context, before, after, partners, before_open[x] as int, j));
    }
    assert forall|e: int| 0 <= e < matches.len() implies is_only_wrapping(
        context,
        before,
        after,
        partners,
        (#[trigger] matches[e]).before as int,
        matches[e].after as int,
    ) by {
        let k = choose|k: int|
            0 <= k < scores.len() && #[trigger] reciprocal(scores, 0, k) && scores[k].before
                == matches[e].before && scores[k].after == matches[e].after;
        let i = scores[k].before as int;
        let j = scores[k].after as int;
        assert(is_wrapping(context, before, after, partners, i, j));
        assert forall|other: int| #[trigger]
            is_wrapping(context, before, after, partners, i, other) implies other == j by {
            assert(is_scored(scores, i, other));
            let l = choose|l: int|
                0 <= l < scores.len() && (#[trigger] scores[l]).before == i && scores[l].after
                    == other;
            assert(scores[l].end(true) == scores[k].end(true));
        }
        assert forall|other: int| #[trigger]
            is_wrapping(context, before, after, partners, other, j) implies other == i by {
            assert(is_scored(scores, other, j));
            let l = choose|l: int|
                0 <= l < scores.len() && (#[trigger] scores[l]).before == other && scores[l].after
                    == j;
            assert(scores[l].end(false) == scores[k].end(false));
        }
    }
    assert forall|i: int, j: int| #[trigger]
        is_only_wrapping(context, before, after, partners, i, j) implies matches.contains(
        OrderedMatch { before: i as usize, after: j as usize },
    ) by {
        assert(is_wrapping(context, before, after, partners, i, j));
        assert(is_scored(scores, i, j));
        let k = choose|k: int|
            0 <= k < scores.len() && (#[trigger] scores[k]).before == i && scores[k].after == j;
        assert forall|l: int|
            0 <= l < scores.len() && l != k && (#[trigger] scores[l]).end(true) == scores[k].end(
                true,
            ) implies scores[l].score < scores[k].score by {
            assert(is_wrapping(
                context,
                before,
                after,
                partners,
                scores[l].before as int,
                scores[l].after as int,
            ));
            assert(is_wrapping(context, before, after, partners, i, scores[l].after as int));
            if l < k {
                assert(scores[l].before < scores[k].before || scores[l].after < scores[k].after);
            } else {
                assert(scores[k].before < scores[l].before || scores[k].after < scores[l].after);
            }
        }
        assert forall|l: int|
            0 <= l < scores.len() && l != k && (#[trigger] scores[l]).end(false) == scores[k].end(
                false,
            ) implies scores[l].score < scores[k].score by {
            assert(is_wrapping(
                context,
                before,
                after,
                partners,
                scores[l].before as int,
                scores[l].after as int,
            ));
            assert(is_wrapping(context, before, after, partners, scores[l].before as int, j));
            if l < k {
                assert(scores[l].before < scores[k].before || scores[l].after < scores[k].after);
            } else {
                assert(scores[k].before < scores[l].before || scores[k].after < scores[l].after);
            }
        }
        assert(reciprocal(scores, 0, k));
    }
}

/// Every listed position is in the group of its print, and groups ascend.
spec fn groups_full(
    groups: Map<usize, Vec<usize>>,
    facts: Facts,
    ids: Seq<NodeId>,
    positions: Seq<usize>,
) -> bool {
    &&& forall|k: int|
        0 <= k < positions.len() ==> groups.contains_key(
            facts.prints@[ids[(#[trigger] positions[k]) as int] as int].full,
        ) && groups[facts.prints@[ids[positions[k] as int] as int].full]@.contains(positions[k])
    &&& forall|print: usize| #[trigger] groups.contains_key(print) ==> spread(groups[print]@)
}

/// Every group lists given positions of leaves with that print.
spec fn groups_by_print(
    groups: Map<usize, Vec<usize>>,
    facts: Facts,
    ids: Seq<NodeId>,
    positions: Seq<usize>,
) -> bool {
    forall|print: usize, m: int|
        #![trigger groups[print]@[m]]
        groups.contains_key(print) && 0 <= m < groups[print]@.len() ==> groups[print]@[m]
            < ids.len() && positions.contains(groups[print]@[m]) && facts.prints@[ids[groups[print]@[m] as int] as int].full == print
}

/// Positions of listed leaves by content.
fn positions_by_print(facts: &Facts, ids: &Vec<NodeId>, positions: &Vec<usize>) -> (groups: HashMap<
    usize,
    Vec<usize>,
>)
    requires
        indices_below(ids@, facts.prints@.len() as int),
        indices_below(positions@, ids@.len() as int),
        spread(positions@),
    ensures
        groups_by_print(groups@, *facts, ids@, positions@),
        groups_full(groups@, *facts, ids@, positions@),
{
    let mut groups: HashMap<usize, Vec<usize>> = HashMap::new();
    let mut index: usize = 0;
    while index < positions.len()
        invariant
            indices_below(ids@, facts.prints@.len() as int),
            indices_below(positions@, ids@.len() as int),
            index <= positions@.len(),
            spread(positions@),
            groups_full(groups@, *facts, ids@, positions@.take(index as int)),
            groups_by_print(groups@, *facts, ids@, positions@.take(index as int)),
            groups_by_print(groups@, *facts, ids@, positions@),
        decreases positions@.len() - index,
    {
        let position = positions[index];
        let print = facts.prints[ids[position]].full;
        let ghost earlier = groups@;
        let mut list = match groups.remove(&print) {
            Some(list) => list,
            None => Vec::new(),
        };
        let ghost before_push = list@;
        proof {
            assert forall|m: int| 0 <= m < before_push.len() implies (#[trigger] before_push[m])
                < ids@.len() && positions@.contains(before_push[m])
                && facts.prints@[ids@[before_push[m] as int] as int].full == print by {
                assert(earlier[print]@[m] == before_push[m]);
            }
        }
        list.push(position);
        groups.insert(print, list);
        proof {
            assert forall|other: usize, m: int|
                #![trigger groups@[other]@[m]]
                groups@.contains_key(other) && 0 <= m < groups@[other]@.len() implies groups@[other]@[m]
                < ids@.len() && positions@.contains(groups@[other]@[m])
                && facts.prints@[ids@[groups@[other]@[m] as int] as int].full == other by {
                if other == print {
                    if m < before_push.len() {
                        assert(groups@[other]@[m] == before_push[m]);
                    } else {
                        assert(positions@[index as int] == position);
                    }
                } else {
                    assert(groups@[other] == earlier[other]);
                    assert(earlier[other]@[m] == groups@[other]@[m]);
                }
            }
        }
        proof {
            let seen = positions@.take(index as int);
            let more = positions@.take(index + 1);
            assert(more =~= seen.push(position));
            assert forall|value: usize| #[trigger] seen.contains(value) implies more.contains(
                value,
            ) by {
                let k = choose|k: int| 0 <= k < seen.len() && seen[k] == value;
                assert(more[k] == value);
            }
            assert(more[index as int] == position);
            assert forall|other: usize, m: int|
                #![trigger groups@[other]@[m]]
                groups@.contains_key(other) && 0 <= m < groups@[other]@.len() implies groups@[other]@[m]
                < ids@.len() && more.contains(groups@[other]@[m])
                && facts.prints@[ids@[groups@[other]@[m] as int] as int].full == other by {
                if other == print {
                    if m < before_push.len() {
                        assert(earlier[print]@[m] == before_push[m]);
                        assert(seen.contains(before_push[m]));
                    }
                } else {
                    assert(earlier[other]@[m] == groups@[other]@[m]);
                    assert(seen.contains(earlier[other]@[m]));
                }
            }
            assert forall|other: usize| #[trigger] groups@.contains_key(other) implies spread(
                groups@[other]@,
            ) by {
                if other == print {
                    assert forall|k: int, l: int|
                        0 <= k < l < groups@[print]@.len() implies #[trigger] groups@[print]@[k]
                        < #[trigger] groups@[print]@[l] by {
                        if l == before_push.len() {
                            assert(earlier[print]@[k] == before_push[k]);
                            assert(seen.contains(before_push[k]));
                            let z = choose|z: int| 0 <= z < seen.len() && seen[z] == before_push[k];
                            assert(positions@[z] < positions@[index as int]);
                        } else {
                            assert(earlier[print]@[k] < earlier[print]@[l]);
                        }
                    }
                } else {
                    assert(earlier.contains_key(other));
                }
            }
            assert forall|k: int| 0 <= k < more.len() implies groups@.contains_key(
                facts.prints@[ids@[(#[trigger] more[k]) as int] as int].full,
            ) && groups@[facts.prints@[ids@[more[k] as int] as int].full]@.contains(more[k]) by {
                let own = facts.prints@[ids@[more[k] as int] as int].full;
                if k < index {
                    assert(more[k] == seen[k]);
                    assert(earlier.contains_key(own) && earlier[own]@.contains(seen[k]));
                    let z = choose|z: int| 0 <= z < earlier[own]@.len() && earlier[own]@[z] == seen[k];
                    assert(groups@[own]@[z] == seen[k]);
                } else {
                    assert(groups@[print]@[groups@[print]@.len() - 1] == position);
                }
            }
        }
        index += 1;
    }
    assert(positions@.take(positions@.len() as int) =~= positions@);
    groups
}

/// Number of a leaf's channel.
pub open spec fn channel_code(node: SyntaxNode) -> usize {
    match node.leaf {
        None => 0,
        Some(leaf) => match leaf.channel {
            ContentChannel::Syntax => 1,
            ContentChannel::Comment => 2,
            ContentChannel::Opaque => 3,
            ContentChannel::Layout => 4,
        },
    }
}

/// A leaf's kind, field, channel, and flags.
pub open spec fn leaf_shape(tree: SyntaxTree, facts: Facts, id: int) -> Seq<usize> {
    seq![
        facts.symbols@[id].kind,
        facts.symbols@[id].slot,
        channel_code(tree.nodes@[id]),
        flag(tree.nodes@[id].named),
        flag(tree.nodes@[id].extra),
        flag(tree.nodes@[id].missing),
    ]
}

/// Add a leaf's kind, field, channel, and flags.
fn push_leaf_shape(tree: &SyntaxTree, facts: &Facts, id: NodeId, key: &mut Vec<usize>)
    requires
        tree.wf(),
        facts.fits(*tree),
        tree.has_node(id as int),
    ensures
        final(key)@ == old(key)@ + leaf_shape(*tree, *facts, id as int),
{
    let node = &tree.nodes[id];
    let ghost earlier = key@;
    key.push(facts.symbols[id].kind);
    key.push(facts.symbols[id].slot);
    let channel: usize = match node.leaf {
        None => 0,
        Some(leaf) => match leaf.channel {
            ContentChannel::Syntax => 1,
            ContentChannel::Comment => 2,
            ContentChannel::Opaque => 3,
            ContentChannel::Layout => 4,
        },
    };
    key.push(channel);
    key.push(if node.named { 1 } else { 0 });
    key.push(if node.extra { 1 } else { 0 });
    key.push(if node.missing { 1 } else { 0 });
    assert(key@ =~= earlier + leaf_shape(*tree, *facts, id as int));
}

/// Where a leaf stands: its parent and, for documentation, its owner.
pub open spec fn place_key(parent: usize, owner: Option<usize>) -> Seq<usize> {
    match owner {
        Some(owner) => seq![parent, owner],
        None => seq![parent],
    }
}

/// Key of an old leaf among edited ones, in terms of the after revision: documentation needs a
/// matched owner, and every leaf a matched parent.
pub open spec fn old_edit_key(
    context: UnitContext<'_>,
    documentation: bool,
    id: int,
) -> Option<Seq<usize>> {
    let decoration = context.scene.pair.before.nodes@[id].decoration_owner;
    let owner = match decoration {
        None => None,
        Some(found) => if found == context.before_unit {
            Some(context.after_unit)
        } else {
            context.links.partners.before@[found as int]
        },
    };
    match desired_parent_code(context, id) {
        Some(parent) if (decoration is Some) == documentation && (documentation ==> owner is Some) => Some(
            place_key(parent, owner) + leaf_shape(
                context.scene.pair.before,
                *context.scene.before,
                id,
            ),
        ),
        _ => None,
    }
}

/// Key of a new leaf among edited ones.
pub open spec fn new_edit_key(
    context: UnitContext<'_>,
    documentation: bool,
    id: int,
) -> Option<Seq<usize>> {
    let owner = context.scene.pair.after.nodes@[id].decoration_owner;
    match parent_code(context, id) {
        Some(parent) if (owner is Some) == documentation => Some(
            place_key(parent, owner) + leaf_shape(
                context.scene.pair.after,
                *context.scene.after,
                id,
            ),
        ),
        _ => None,
    }
}

/// Pairs have equal keys, and no two leaves of equal keys are both left over.
pub open spec fn edits_matched(
    context: UnitContext<'_>,
    before: Seq<NodeId>,
    after: Seq<NodeId>,
    documentation: bool,
    partners: Partners,
) -> bool {
    &&& forall|i: int|
        0 <= i < before.len() ==> ((#[trigger] partners.before@[i]) matches Some(j) ==> {
            let key = old_edit_key(context, documentation, before[i] as int);
            key is Some && key == new_edit_key(context, documentation, after[j as int] as int)
        })
    &&& forall|i: int, j: int|
        0 <= i < before.len() && 0 <= j < after.len() && (#[trigger] old_edit_key(
            context,
            documentation,
            before[i] as int,
        )) is Some && old_edit_key(context, documentation, before[i] as int)
            == #[trigger] new_edit_key(context, documentation, after[j] as int) ==> is_taken(
            partners,
            i,
            j,
        )
}

/// The positions below `end` whose leaves have keys, ascending, with these keys.
spec fn lists_keys(
    wanted: Seq<Option<Seq<usize>>>,
    end: int,
    positions: Seq<usize>,
    keys: Seq<Vec<usize>>,
) -> bool {
    &&& positions.len() == keys.len()
    &&& spread(positions)
    &&& forall|k: int|
        0 <= k < positions.len() ==> (#[trigger] positions[k]) < end && wanted[positions[k] as int]
            == Some(keys[k]@)
    &&& forall|i: int|
        0 <= i < end && (#[trigger] wanted[i]) is Some ==> positions.contains(i as usize)
}

proof fn lemma_one_more_key(
    wanted: Seq<Option<Seq<usize>>>,
    end: usize,
    earlier: Seq<usize>,
    earlier_keys: Seq<Vec<usize>>,
    positions: Seq<usize>,
    keys: Seq<Vec<usize>>,
)
    requires
        end < wanted.len(),
        lists_keys(wanted, end as int, earlier, earlier_keys),
        match wanted[end as int] {
            Some(key) => positions == earlier.push(end) && keys.len() == earlier_keys.len() + 1
                && keys.drop_last() == earlier_keys && keys.last()@ == key,
            None => positions == earlier && keys == earlier_keys,
        },
    ensures
        lists_keys(wanted, end + 1, positions, keys),
{
    assert forall|k: int| 0 <= k < positions.len() implies (#[trigger] positions[k]) < end + 1
        && wanted[positions[k] as int] == Some(keys[k]@) by {
        if k < earlier.len() {
            assert(positions[k] == earlier[k]);
            if wanted[end as int] is Some {
                assert(keys.drop_last()[k] == keys[k]);
            }
        }
    }
    assert forall|i: int| 0 <= i < end + 1 && (#[trigger] wanted[i]) is Some implies positions.contains(
        i as usize,
    ) by {
        if i < end {
            assert(earlier.contains(i as usize));
            let k = choose|k: int| 0 <= k < earlier.len() && earlier[k] == i as usize;
            assert(positions[k] == i as usize);
        } else {
            assert(positions[earlier.len() as int] == end);
        }
    }
}

/// Match leaves of equal shape: edited documentation under its owner, or edited content under
/// its parent.
///
/// Matched parents are required either way: matching syntax roles cannot establish that a leaf
/// survived a wrapper change.
pub fn edited_leaf_matches(
    context: &UnitContext<'_>,
    before: &Vec<NodeId>,
    after: &Vec<NodeId>,
    documentation: bool,
) -> (partners: Partners)
    requires
        context.wf(),
        indices_below(before@, context.scene.before_len()),
        indices_below(after@, context.scene.after_len()),
    ensures
        partners.wf(before@.len() as int, after@.len() as int),
        edits_matched(*context, before@, after@, documentation, partners),
{
    let ghost old_keys = Seq::new(
        before@.len(),
        |i: int| old_edit_key(*context, documentation, before@[i] as int),
    );
    let ghost new_keys = Seq::new(
        after@.len(),
        |i: int| new_edit_key(*context, documentation, after@[i] as int),
    );
    let mut before_positions: Vec<usize> = Vec::new();
    let mut before_keys: Vec<Vec<usize>> = Vec::new();
    let mut index: usize = 0;
    while index < before.len()
        invariant
            context.wf(),
            indices_below(before@, context.scene.before_len()),
            index <= before@.len(),
            old_keys == Seq::new(
                before@.len(),
                |i: int| old_edit_key(*context, documentation, before@[i] as int),
            ),
            lists_keys(old_keys, index as int, before_positions@, before_keys@),
        decreases before@.len() - index,
    {
        let id = before[index];
        let ghost earlier = before_positions@;
        let ghost earlier_keys = before_keys@;
        let decorated = context.scene.pair.before.nodes[id].decoration_owner.is_some();
        if decorated == documentation {
            if let Some(parent) = desired_after_parent(context, id) {
                let owner = context.desired_after_decoration_owner(id);
                if !documentation || owner.is_some() {
                    let mut key: Vec<usize> = Vec::new();
                    key.push(parent);
                    if let Some(owner) = owner {
                        key.push(owner);
                    }
                    assert(key@ =~= place_key(parent, owner));
                    push_leaf_shape(&context.scene.pair.before, context.scene.before, id, &mut key);
                    before_positions.push(index);
                    before_keys.push(key);
                    assert(before_keys@.drop_last() =~= earlier_keys);
                }
            }
        }
        proof {
            lemma_one_more_key(
                old_keys,
                index,
                earlier,
                earlier_keys,
                before_positions@,
                before_keys@,
            );
        }
        index += 1;
    }
    let mut after_positions: Vec<usize> = Vec::new();
    let mut after_keys: Vec<Vec<usize>> = Vec::new();
    let mut index: usize = 0;
    while index < after.len()
        invariant
            context.wf(),
            indices_below(after@, context.scene.after_len()),
            index <= after@.len(),
            new_keys == Seq::new(
                after@.len(),
                |i: int| new_edit_key(*context, documentation, after@[i] as int),
            ),
            lists_keys(new_keys, index as int, after_positions@, after_keys@),
        decreases after@.len() - index,
    {
        let id = after[index];
        let ghost earlier = after_positions@;
        let ghost earlier_keys = after_keys@;
        let owner = context.scene.pair.after.nodes[id].decoration_owner;
        if owner.is_some() == documentation {
            if let Some(parent) = after_parent(context, id) {
                let mut key: Vec<usize> = Vec::new();
                key.push(parent);
                if let Some(owner) = owner {
                    key.push(owner);
                }
                assert(key@ =~= place_key(parent, owner));
                push_leaf_shape(&context.scene.pair.after, context.scene.after, id, &mut key);
                after_positions.push(index);
                after_keys.push(key);
                assert(after_keys@.drop_last() =~= earlier_keys);
            }
        }
        proof {
            lemma_one_more_key(
                new_keys,
                index,
                earlier,
                earlier_keys,
                after_positions@,
                after_keys@,
            );
        }
        index += 1;
    }
    let ghost left_keys = before_keys@;
    let ghost right_keys = after_keys@;
    let matches = unordered_key_matches(before_keys, after_keys);
    let mut partners = Partners::new(before.len(), after.len());
    let ghost start = partners;
    partners.claim_all(&before_positions, &after_positions, &matches);
    proof {
        assert(before.len() <= usize::MAX && after.len() <= usize::MAX);
        lemma_edits_matched(
            *context,
            before@,
            after@,
            documentation,
            before_positions@,
            after_positions@,
            left_keys,
            right_keys,
            matches@,
            start,
            partners,
        );
    }
    partners
}

/// Claiming a complete matching of equal keys matches the edited leaves.
proof fn lemma_edits_matched(
    context: UnitContext<'_>,
    before: Seq<NodeId>,
    after: Seq<NodeId>,
    documentation: bool,
    before_positions: Seq<usize>,
    after_positions: Seq<usize>,
    before_keys: Seq<Vec<usize>>,
    after_keys: Seq<Vec<usize>>,
    matches: Seq<OrderedMatch>,
    start: Partners,
    partners: Partners,
)
    requires
        before.len() <= usize::MAX,
        after.len() <= usize::MAX,
        partners.wf(before.len() as int, after.len() as int),
        lists_keys(
            Seq::new(
                before.len(),
                |i: int| old_edit_key(context, documentation, before[i] as int),
            ),
            before.len() as int,
            before_positions,
            before_keys,
        ),
        lists_keys(
            Seq::new(after.len(), |i: int| new_edit_key(context, documentation, after[i] as int)),
            after.len() as int,
            after_positions,
            after_keys,
        ),
        keys_agree(matches, key_views(before_keys), key_views(after_keys)),
        keys_exhausted(matches, key_views(before_keys), key_views(after_keys)),
        all_claimed(partners, before_positions, after_positions, matches),
        new_pairs_from(partners, start, before_positions, after_positions, matches),
        start.before@.len() == before.len(),
        forall|i: int| 0 <= i < before.len() ==> (#[trigger] start.before@[i]) is None,
    ensures
        edits_matched(context, before, after, documentation, partners),
{
    let old_keys = Seq::new(
        before.len(),
        |i: int| old_edit_key(context, documentation, before[i] as int),
    );
    let new_keys = Seq::new(
        after.len(),
        |i: int| new_edit_key(context, documentation, after[i] as int),
    );
    assert forall|i: int| 0 <= i < before.len() implies ((
    #[trigger] partners.before@[i]) matches Some(j) ==> {
        let key = old_edit_key(context, documentation, before[i] as int);
        key is Some && key == new_edit_key(context, documentation, after[j as int] as int)
    }) by {
        if partners.before@[i] is Some {
            assert(start.before@[i] is None);
            let k = choose|k: int|
                0 <= k < matches.len() && before_positions[(#[trigger] matches[k]).before as int]
                    == i && after_positions[matches[k].after as int] == partners.before@[i]->0;
            let edge = matches[k];
            assert(key_views(before_keys)[edge.before as int] == key_views(
                after_keys,
            )[edge.after as int]);
            assert(old_keys[before_positions[edge.before as int] as int] == Some(
                before_keys[edge.before as int]@,
            ));
            assert(new_keys[after_positions[edge.after as int] as int] == Some(
                after_keys[edge.after as int]@,
            ));
        }
    }
    assert forall|i: int, j: int|
        0 <= i < before.len() && 0 <= j < after.len() && (#[trigger] old_edit_key(
            context,
            documentation,
            before[i] as int,
        )) is Some && old_edit_key(context, documentation, before[i] as int)
            == #[trigger] new_edit_key(context, documentation, after[j] as int) implies is_taken(
        partners,
        i,
        j,
    ) by {
        assert(old_keys[i] is Some);
        assert(new_keys[j] is Some);
        assert(before_positions.contains(i as usize));
        assert(after_positions.contains(j as usize));
        let x = choose|x: int| 0 <= x < before_positions.len() && before_positions[x] == i as usize;
        let y = choose|y: int| 0 <= y < after_positions.len() && after_positions[y] == j as usize;
        assert(old_keys[before_positions[x] as int] == Some(before_keys[x]@));
        assert(new_keys[after_positions[y] as int] == Some(after_keys[y]@));
        assert(key_views(before_keys)[x] == key_views(after_keys)[y]);
        assert(has_end(matches, x, y));
        lemma_end_is_paired(partners, before_positions, after_positions, matches, x, y);
    }
}

} // verus!

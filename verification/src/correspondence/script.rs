//! Lay out the edit script of review units.

use crate::alignment::{after_start_at, before_start_at, monotone, OrderedMatch};
use crate::correspondence::builder::{is_flat, unit_contents_linked, Builder};
use crate::correspondence::contexts::Scene;
use crate::correspondence::facts::Facts;
use crate::correspondence::links::{ContentRelation, MatchedUnit, Placement, UnitEdit};
use crate::correspondence::partners::Partners;
use crate::correspondence::tree::edit_fits;
use crate::correspondence::units::{
    anchors_ascend, decorations_fit, flags_longest, ordered_script_anchors, undecorated, unit_ids,
    UnitRecord,
};
use crate::span::Span;
use crate::syntax::{node_fits, NodeId, ReviewMode};
use crate::text::same_bytes;
use vstd::prelude::*;

verus! {

/// After units that the edits name, in order.
pub open spec fn after_units_of(edits: Seq<UnitEdit>) -> Seq<NodeId>
    decreases edits.len(),
{
    if edits.len() == 0 {
        Seq::empty()
    } else {
        let earlier = after_units_of(edits.drop_last());
        match edits.last() {
            UnitEdit::Matched(unit) => earlier.push(unit.after),
            UnitEdit::Added { after } => earlier.push(after),
            UnitEdit::Removed { before } => earlier,
        }
    }
}

/// Before units that the edits match with the after units they name, in order.
pub open spec fn sources_of(edits: Seq<UnitEdit>) -> Seq<Option<NodeId>>
    decreases edits.len(),
{
    if edits.len() == 0 {
        Seq::empty()
    } else {
        let earlier = sources_of(edits.drop_last());
        match edits.last() {
            UnitEdit::Matched(unit) => earlier.push(Some(unit.before)),
            UnitEdit::Added { after } => earlier.push(None),
            UnitEdit::Removed { before } => earlier,
        }
    }
}

/// Before units that are the partners of the first after units.
pub open spec fn partner_ids(
    before: Seq<UnitRecord>,
    partner: Seq<Option<usize>>,
    count: int,
) -> Seq<Option<NodeId>> {
    Seq::new(
        count as nat,
        |j: int|
            match partner[j] {
                Some(i) => Some(before[i as int].id),
                None => None,
            },
    )
}

/// Before units that the edits remove, in order.
pub open spec fn removed_units_of(edits: Seq<UnitEdit>) -> Seq<NodeId>
    decreases edits.len(),
{
    if edits.len() == 0 {
        Seq::empty()
    } else {
        let earlier = removed_units_of(edits.drop_last());
        match edits.last() {
            UnitEdit::Removed { before } => earlier.push(before),
            _ => earlier,
        }
    }
}

/// The units without a partner are listed, and no others.
proof fn lemma_unpaired_listed(units: Seq<UnitRecord>, partner: Seq<Option<usize>>, id: NodeId)
    requires
        partner.len() == units.len(),
    ensures
        unpaired_ids(units, partner).contains(id) <==> exists|i: int|
            0 <= i < units.len() && (#[trigger] units[i]).id == id && partner[i] is None,
    decreases units.len(),
{
    if units.len() > 0 {
        let fewer = units.drop_last();
        let rest = partner.drop_last();
        lemma_unpaired_listed(fewer, rest, id);
        let earlier = unpaired_ids(fewer, rest);
        let all = unpaired_ids(units, partner);
        let last = units.len() - 1;
        if exists|i: int| 0 <= i < units.len() && (#[trigger] units[i]).id == id && partner[i] is None {
            let i = choose|i: int|
                0 <= i < units.len() && (#[trigger] units[i]).id == id && partner[i] is None;
            if i < last {
                assert(fewer[i].id == id && rest[i] is None);
                let k = choose|k: int| 0 <= k < earlier.len() && earlier[k] == id;
                assert(all[k] == id);
            } else {
                assert(all[all.len() - 1] == id);
            }
        }
        if all.contains(id) {
            let k = choose|k: int| 0 <= k < all.len() && all[k] == id;
            if k < earlier.len() {
                assert(earlier[k] == id);
                let i = choose|i: int|
                    0 <= i < fewer.len() && (#[trigger] fewer[i]).id == id && rest[i] is None;
                assert(units[i].id == id && partner[i] is None);
            } else {
                assert(units[last].id == id && partner[last] is None);
            }
        }
    }
}

/// Every before unit stands in exactly one edit: an edit removes it, or one edit matches it with
/// an after unit, and never both.
pub proof fn every_before_unit_is_in_one_edit(
    before: Seq<UnitRecord>,
    after: Seq<UnitRecord>,
    partners: Partners,
    edits: Seq<UnitEdit>,
)
    requires
        partners.wf(before.len() as int, after.len() as int),
        forall|k: int, l: int|
            0 <= k < l < before.len() ==> (#[trigger] before[k]).id < (#[trigger] before[l]).id,
        sources_of(edits) == partner_ids(before, partners.after@, after.len() as int),
        removed_units_of(edits) == unpaired_ids(before, partners.before@),
    ensures
        forall|i: int|
            0 <= i < before.len() ==> (removed_units_of(edits).contains((#[trigger] before[i]).id)
                <==> !sources_of(edits).contains(Some(before[i].id))),
        forall|j: int, k: int|
            0 <= j < k < sources_of(edits).len() && (#[trigger] sources_of(edits)[j]) is Some ==> (
            #[trigger] sources_of(edits)[k]) != sources_of(edits)[j],
{
    let sources = sources_of(edits);
    assert(partners.before.len() <= usize::MAX && partners.after.len() <= usize::MAX);
    assert forall|i: int| 0 <= i < before.len() implies (removed_units_of(edits).contains(
        (#[trigger] before[i]).id,
    ) <==> !sources.contains(Some(before[i].id))) by {
        let id = before[i].id;
        lemma_unpaired_listed(before, partners.before@, id);
        match partners.before@[i] {
            Some(j) => {
                assert(partners.after@[j as int] == Some(i as usize));
                assert(sources[j as int] == Some(id));
                if removed_units_of(edits).contains(id) {
                    let other = choose|other: int|
                        0 <= other < before.len() && (#[trigger] before[other]).id == id
                            && partners.before@[other] is None;
                    assert(other == i);
                }
            },
            None => {
                assert(before[i].id == id && partners.before@[i] is None);
                if sources.contains(Some(id)) {
                    let j = choose|j: int| 0 <= j < sources.len() && sources[j] == Some(id);
                    let other = partners.after@[j]->0 as int;
                    assert(partners.after@[j] is Some);
                    assert(partners.before@[other] == Some(j as usize));
                    assert(before[other].id == id);
                    assert(other == i);
                }
            },
        }
    }
    assert forall|j: int, k: int|
        0 <= j < k < sources.len() && (#[trigger] sources[j]) is Some implies (
    #[trigger] sources[k]) != sources[j] by {
        if sources[k] == sources[j] {
            let left = partners.after@[j]->0 as int;
            let right = partners.after@[k]->0 as int;
            assert(partners.after@[j] is Some && partners.after@[k] is Some);
            assert(partners.before@[left] == Some(j as usize));
            assert(partners.before@[right] == Some(k as usize));
            assert(before[left].id == before[right].id);
            assert(left == right);
        }
    }
}

/// Ids of the units without a partner.
pub open spec fn unpaired_ids(units: Seq<UnitRecord>, partner: Seq<Option<usize>>) -> Seq<NodeId>
    decreases units.len(),
{
    if units.len() == 0 {
        Seq::empty()
    } else {
        let earlier = unpaired_ids(units.drop_last(), partner.drop_last());
        if partner.last() is None {
            earlier.push(units.last().id)
        } else {
            earlier
        }
    }
}

/// What an edit shows: an old unit that is gone, or a current one.
pub open spec fn step_of(edit: UnitEdit) -> (bool, NodeId) {
    match edit {
        UnitEdit::Matched(unit) => (false, unit.after),
        UnitEdit::Added { after } => (false, after),
        UnitEdit::Removed { before } => (true, before),
    }
}

/// What the edits show, in order.
pub open spec fn steps_of(edits: Seq<UnitEdit>) -> Seq<(bool, NodeId)> {
    Seq::new(edits.len(), |k: int| step_of(edits[k]))
}

/// Old units of a range that are gone, in order.
pub open spec fn removed_steps(
    before: Seq<UnitRecord>,
    partner: Seq<Option<usize>>,
    start: int,
    end: int,
) -> Seq<(bool, NodeId)>
    decreases end - start,
{
    if end <= start {
        Seq::empty()
    } else {
        let earlier = removed_steps(before, partner, start, end - 1);
        if partner[end - 1] is None {
            earlier.push((true, before[end - 1].id))
        } else {
            earlier
        }
    }
}

/// Current units of a range, in order.
pub open spec fn current_steps(after: Seq<UnitRecord>, start: int, end: int) -> Seq<(bool, NodeId)>
    decreases end - start,
{
    if end <= start {
        Seq::empty()
    } else {
        current_steps(after, start, end - 1).push((false, after[end - 1].id))
    }
}

/// Up to each anchor, the old units before it that are gone, and then the current ones and it.
pub open spec fn anchored_steps(
    before: Seq<UnitRecord>,
    partner: Seq<Option<usize>>,
    after: Seq<UnitRecord>,
    pairs: Seq<OrderedMatch>,
    count: int,
) -> Seq<(bool, NodeId)>
    decreases count,
{
    if count <= 0 {
        Seq::empty()
    } else {
        anchored_steps(before, partner, after, pairs, count - 1) + removed_steps(
            before,
            partner,
            before_start_at(pairs, count - 1),
            pairs[count - 1].before as int,
        ) + current_steps(after, after_start_at(pairs, count - 1), pairs[count - 1].after + 1)
    }
}

/// The steps up to the last anchor, and the rest in the same manner.
pub open spec fn script_steps(
    before: Seq<UnitRecord>,
    partner: Seq<Option<usize>>,
    after: Seq<UnitRecord>,
    pairs: Seq<OrderedMatch>,
) -> Seq<(bool, NodeId)> {
    anchored_steps(before, partner, after, pairs, pairs.len() as int) + removed_steps(
        before,
        partner,
        before_start_at(pairs, pairs.len() as int),
        before.len() as int,
    ) + current_steps(after, after_start_at(pairs, pairs.len() as int), after.len() as int)
}

/// Anchors with their partners, in order.
pub open spec fn anchored_pairs(
    anchors: Seq<bool>,
    partner: Seq<Option<usize>>,
    end: int,
) -> Seq<OrderedMatch>
    decreases end,
{
    if end <= 0 {
        Seq::empty()
    } else {
        let earlier = anchored_pairs(anchors, partner, end - 1);
        if anchors[end - 1] && partner[end - 1] is Some {
            earlier.push(
                OrderedMatch { before: (end - 1) as usize, after: partner[end - 1]->0 },
            )
        } else {
            earlier
        }
    }
}

/// Anchors of the script: a longest selection of undecorated partners in order, and the
/// decorations that fit between them.
pub open spec fn are_script_anchors(
    anchors: Seq<bool>,
    partner: Seq<Option<usize>>,
    before: Seq<UnitRecord>,
    stable: Seq<bool>,
) -> bool {
    &&& anchors.len() == partner.len()
    &&& flags_longest(anchors, partner, undecorated(before))
    &&& decorations_fit(anchors, partner, before, stable)
}

/// The script goes from anchor to anchor.
pub open spec fn follows_anchors(
    before: Seq<UnitRecord>,
    partner: Seq<Option<usize>>,
    after: Seq<UnitRecord>,
    stable: Seq<bool>,
    edits: Seq<UnitEdit>,
) -> bool {
    exists|anchors: Seq<bool>| #[trigger]
        are_script_anchors(anchors, partner, before, stable) && steps_of(edits) == script_steps(
            before,
            partner,
            after,
            anchored_pairs(anchors, partner, partner.len() as int),
        )
}

/// Adding an edit adds its after unit and its removed unit.
proof fn lemma_push_edit(edits: Seq<UnitEdit>, edit: UnitEdit)
    ensures
        after_units_of(edits.push(edit)) == (match edit {
            UnitEdit::Matched(unit) => after_units_of(edits).push(unit.after),
            UnitEdit::Added { after } => after_units_of(edits).push(after),
            UnitEdit::Removed { before } => after_units_of(edits),
        }),
        sources_of(edits.push(edit)) == (match edit {
            UnitEdit::Matched(unit) => sources_of(edits).push(Some(unit.before)),
            UnitEdit::Added { after } => sources_of(edits).push(None),
            UnitEdit::Removed { before } => sources_of(edits),
        }),
        removed_units_of(edits.push(edit)) == (match edit {
            UnitEdit::Removed { before } => removed_units_of(edits).push(before),
            _ => removed_units_of(edits),
        }),
        steps_of(edits.push(edit)) == steps_of(edits).push(step_of(edit)),
{
    assert(steps_of(edits.push(edit)) =~= steps_of(edits).push(step_of(edit)));
    assert(edits.push(edit).drop_last() =~= edits);
    assert(edits.push(edit).last() == edit);
}

/// One more unit adds its id, where it has no partner.
proof fn lemma_unpaired_step(units: Seq<UnitRecord>, partner: Seq<Option<usize>>, index: int)
    requires
        units.len() == partner.len(),
        0 <= index < units.len(),
    ensures
        unpaired_ids(units.take(index + 1), partner.take(index + 1)) == if partner[index] is None {
            unpaired_ids(units.take(index), partner.take(index)).push(units[index].id)
        } else {
            unpaired_ids(units.take(index), partner.take(index))
        },
        unit_ids(units.take(index + 1)) == unit_ids(units.take(index)).push(units[index].id),
{
    assert(units.take(index + 1).drop_last() =~= units.take(index));
    assert(partner.take(index + 1).drop_last() =~= partner.take(index));
    assert(unit_ids(units.take(index + 1)) =~= unit_ids(units.take(index)).push(units[index].id));
}

/// Units name nodes, and carry their fingerprints.
pub open spec fn units_fit(units: Seq<UnitRecord>, facts: Facts) -> bool {
    forall|k: int|
        0 <= k < units.len() ==> (#[trigger] units[k]).id < facts.prints@.len() && units[k].prints
            == facts.prints@[units[k].id as int]
}

/// A matched edit joins partners, and says how their contents relate.
#[verifier::opaque]
pub open spec fn matched_ok(
    scene: Scene<'_>,
    before: Seq<UnitRecord>,
    after: Seq<UnitRecord>,
    partner: Seq<Option<usize>>,
    stable: Seq<bool>,
    unit: MatchedUnit,
) -> bool {
    let before_node = scene.pair.before.nodes@[unit.before as int];
    let after_node = scene.pair.after.nodes@[unit.after as int];
    &&& exists|i: int|
        0 <= i < before.len() && (#[trigger] before[i]).id == unit.before
            && (partner[i] matches Some(j) && j < after.len() && after[j as int].id == unit.after
            && unit.mode == ReviewMode::reconciled(before[i].mode, after[j as int].mode)
            && unit.placement == (if stable[i] {
            Placement::Stable
        } else {
            Placement::Reordered
        }))
    &&& unit.relation == ContentRelation::SourceEqual <==> scene.pair.before.source.data().subrange(
        before_node.bytes.start as int,
        before_node.bytes.end as int,
    ) == scene.pair.after.source.data().subrange(
        after_node.bytes.start as int,
        after_node.bytes.end as int,
    )
    &&& unit.relation == ContentRelation::FullEqual
        ==> scene.before.prints@[unit.before as int].full
        == scene.after.prints@[unit.after as int].full
    &&& unit.relation == ContentRelation::PayloadEqual
        ==> scene.before.prints@[unit.before as int].full
        != scene.after.prints@[unit.after as int].full
        && scene.before.prints@[unit.before as int].payload
        == scene.after.prints@[unit.after as int].payload
    &&& unit.relation == ContentRelation::Modified
        ==> scene.before.prints@[unit.before as int].full
        != scene.after.prints@[unit.after as int].full
        && scene.before.prints@[unit.before as int].payload
        != scene.after.prints@[unit.after as int].payload
}

/// The links of a matched unit are those of its contents, behind all links that came before.
pub open spec fn is_unit_part(
    scene: Scene<'_>,
    unit: MatchedUnit,
    earlier: Builder,
    later: Builder,
    builder: Builder,
) -> bool {
    &&& unit_contents_linked(scene, unit.before, unit.after, unit.placement, earlier, later)
    &&& later.grows(earlier)
    &&& builder.grows(later)
    &&& unit.leaf_links.start == earlier.leaves.links@.len()
    &&& unit.leaf_links.end == later.leaves.links@.len()
    &&& unit.composites.start == earlier.composites@.len()
    &&& unit.composites.end == later.composites@.len()
}

/// The collected links hold those of the unit in its ranges.
#[verifier::opaque]
pub open spec fn unit_linked_in(scene: Scene<'_>, unit: MatchedUnit, builder: Builder) -> bool {
    exists|earlier: Builder, later: Builder| #[trigger]
        is_unit_part(scene, unit, earlier, later, builder)
}

/// Links of units stay where they are.
proof fn lemma_unit_stays(scene: Scene<'_>, unit: MatchedUnit, fewer: Builder, builder: Builder)
    requires
        unit_linked_in(scene, unit, fewer),
        builder.grows(fewer),
    ensures
        unit_linked_in(scene, unit, builder),
{
    reveal(unit_linked_in);
    let (earlier, later) = choose|earlier: Builder, later: Builder| #[trigger]
        is_unit_part(scene, unit, earlier, later, fewer);
    assert forall|k: int| 0 <= k < later.leaves.links@.len() implies (
    #[trigger] builder.leaves.links@[k]) == later.leaves.links@[k] by {
        assert(fewer.leaves.links@[k] == later.leaves.links@[k]);
    }
    assert forall|k: int| 0 <= k < later.composites@.len() implies (
    #[trigger] builder.composites@[k]) == later.composites@[k] by {
        assert(fewer.composites@[k] == later.composites@[k]);
    }
    assert forall|k: int| 0 <= k < later.scopes.links@.len() implies (
    #[trigger] builder.scopes.links@[k]) == later.scopes.links@[k] by {
        assert(fewer.scopes.links@[k] == later.scopes.links@[k]);
    }
    assert forall|i: int|
        0 <= i < later.leaves.before@.len() && (#[trigger] later.leaves.before@[i]) is Some implies
        builder.leaves.before@[i] == later.leaves.before@[i] by {
        assert(fewer.leaves.before@[i] == later.leaves.before@[i]);
    }
    assert forall|i: int|
        0 <= i < later.leaves.after@.len() && (#[trigger] later.leaves.after@[i]) is Some implies
        builder.leaves.after@[i] == later.leaves.after@[i] by {
        assert(fewer.leaves.after@[i] == later.leaves.after@[i]);
    }
    assert(is_unit_part(scene, unit, earlier, later, builder));
}

/// Everything the script is made from.
pub struct ScriptInput<'a> {
    pub scene: Scene<'a>,
    pub before: &'a Vec<UnitRecord>,
    pub after: &'a Vec<UnitRecord>,
    pub partners: &'a Partners,
    pub stable: &'a Vec<bool>,
}

impl ScriptInput<'_> {
    pub open spec fn wf(self) -> bool {
        &&& self.scene.wf()
        &&& units_fit(self.before@, *self.scene.before)
        &&& units_fit(self.after@, *self.scene.after)
        &&& self.partners.wf(self.before@.len() as int, self.after@.len() as int)
        &&& self.stable@.len() == self.before@.len()
    }

    /// Edits written so far fit the links, and matched ones are well founded.
    pub open spec fn edits_ok(self, edits: Seq<UnitEdit>, builder: Builder) -> bool {
        forall|k: int|
            0 <= k < edits.len() ==> edit_fits(
                #[trigger] edits[k],
                self.scene.before_len(),
                self.scene.after_len(),
                builder.leaves.links@.len() as int,
                builder.composites@.len() as int,
            ) && (edits[k] matches UnitEdit::Matched(unit) ==> matched_ok(
                self.scene,
                self.before@,
                self.after@,
                self.partners.before@,
                self.stable@,
                unit,
            ) && unit_linked_in(self.scene, unit, builder))
    }

    /// Strongest equality level of two units.
    fn relation(&self, before: usize, after: usize) -> (relation: ContentRelation)
        requires
            self.wf(),
            before < self.before@.len(),
            after < self.after@.len(),
        ensures
            relation == ContentRelation::SourceEqual <==> {
                let left = self.scene.pair.before.nodes@[self.before@[before as int].id as int];
                let right = self.scene.pair.after.nodes@[self.after@[after as int].id as int];
                self.scene.pair.before.source.data().subrange(
                    left.bytes.start as int,
                    left.bytes.end as int,
                ) == self.scene.pair.after.source.data().subrange(
                    right.bytes.start as int,
                    right.bytes.end as int,
                )
            },
            relation == ContentRelation::FullEqual ==> self.before@[before as int].prints.full
                == self.after@[after as int].prints.full,
            relation == ContentRelation::PayloadEqual ==> self.before@[before as int].prints.full
                != self.after@[after as int].prints.full && self.before@[before as int].prints.payload
                == self.after@[after as int].prints.payload,
            relation == ContentRelation::Modified ==> self.before@[before as int].prints.full
                != self.after@[after as int].prints.full && self.before@[before as int].prints.payload
                != self.after@[after as int].prints.payload,
    {
        let left = &self.scene.pair.before.nodes[self.before[before].id];
        let right = &self.scene.pair.after.nodes[self.after[after].id];
        proof {
            assert(node_fits(
                *left,
                self.before@[before as int].id as int,
                self.scene.before_len(),
                self.scene.pair.before.source.data().len() as int,
            ));
            assert(node_fits(
                *right,
                self.after@[after as int].id as int,
                self.scene.after_len(),
                self.scene.pair.after.source.data().len() as int,
            ));
        }
        let same = same_bytes(
            self.scene.pair.before.source.as_bytes(),
            left.bytes.start,
            left.bytes.end,
            self.scene.pair.after.source.as_bytes(),
            right.bytes.start,
            right.bytes.end,
        );
        if same {
            ContentRelation::SourceEqual
        } else if self.before[before].prints.full == self.after[after].prints.full {
            ContentRelation::FullEqual
        } else if self.before[before].prints.payload == self.after[after].prints.payload {
            ContentRelation::PayloadEqual
        } else {
            ContentRelation::Modified
        }
    }

    /// Link the contents of a matched pair and add its edit.
    fn push_matched_unit(
        &self,
        builder: &mut Builder,
        edits: &mut Vec<UnitEdit>,
        before: usize,
        after: usize,
    )
        requires
            self.wf(),
            old(builder).wf(self.scene),
            self.edits_ok(old(edits)@, *old(builder)),
            before < self.before@.len(),
            after < self.after@.len(),
            self.partners.before@[before as int] == Some(after),
        ensures
            final(builder).wf(self.scene),
            self.edits_ok(final(edits)@, *final(builder)),
            after_units_of(final(edits)@) == after_units_of(old(edits)@).push(
                self.after@[after as int].id,
            ),
            sources_of(final(edits)@) == sources_of(old(edits)@).push(
                Some(self.before@[before as int].id),
            ),
            steps_of(final(edits)@) == steps_of(old(edits)@).push(
                (false, self.after@[after as int].id),
            ),
            removed_units_of(final(edits)@) == removed_units_of(old(edits)@),
            is_flat(self.scene.pair.before) ==> final(builder).composites@
                == old(builder).composites@,
    {
        let before_id = self.before[before].id;
        let after_id = self.after[after].id;
        let relation = self.relation(before, after);
        let placement = if self.stable[before] {
            Placement::Stable
        } else {
            Placement::Reordered
        };
        let leaf_start = builder.leaves.links.len();
        let composite_start = builder.composites.len();
        let ghost fewer = *builder;
        builder.link_unit_contents(&self.scene, before_id, after_id, placement);
        let mode = ReviewMode::reconcile(self.before[before].mode, self.after[after].mode);
        let unit = MatchedUnit {
            before: before_id,
            after: after_id,
            mode,
            relation,
            placement,
            leaf_links: Span { start: leaf_start, end: builder.leaves.links.len() },
            composites: Span { start: composite_start, end: builder.composites.len() },
        };
        let ghost earlier = edits@;
        edits.push(UnitEdit::Matched(unit));
        proof {
            lemma_push_edit(earlier, UnitEdit::Matched(unit));
            assert(self.before@[before as int].id == unit.before);
            reveal(matched_ok);
            assert(matched_ok(
                self.scene,
                self.before@,
                self.after@,
                self.partners.before@,
                self.stable@,
                unit,
            ));
            assert(unit_linked_in(self.scene, unit, *builder)) by {
                reveal(unit_linked_in);
                assert(is_unit_part(self.scene, unit, fewer, *builder, *builder));
            }
            assert forall|k: int| 0 <= k < edits@.len() implies edit_fits(
                #[trigger] edits@[k],
                self.scene.before_len(),
                self.scene.after_len(),
                builder.leaves.links@.len() as int,
                builder.composites@.len() as int,
            ) && (edits@[k] matches UnitEdit::Matched(unit) ==> matched_ok(
                self.scene,
                self.before@,
                self.after@,
                self.partners.before@,
                self.stable@,
                unit,
            ) && unit_linked_in(self.scene, unit, *builder)) by {
                if k < earlier.len() {
                    assert(edits@[k] == earlier[k]);
                    if let UnitEdit::Matched(other) = earlier[k] {
                        lemma_unit_stays(self.scene, other, fewer, *builder);
                    }
                }
            }
        }
    }

    /// Add removals of unmatched before units up to a bound.
    fn push_removed(
        &self,
        builder: &Builder,
        edits: &mut Vec<UnitEdit>,
        start: usize,
        end: usize,
    )
        requires
            self.wf(),
            self.edits_ok(old(edits)@, *builder),
            start <= end <= self.before@.len(),
            removed_units_of(old(edits)@) == unpaired_ids(
                self.before@.take(start as int),
                self.partners.before@.take(start as int),
            ),
        ensures
            self.edits_ok(final(edits)@, *builder),
            after_units_of(final(edits)@) == after_units_of(old(edits)@),
            sources_of(final(edits)@) == sources_of(old(edits)@),
            steps_of(final(edits)@) == steps_of(old(edits)@) + removed_steps(
                self.before@,
                self.partners.before@,
                start as int,
                end as int,
            ),
            removed_units_of(final(edits)@) == unpaired_ids(
                self.before@.take(end as int),
                self.partners.before@.take(end as int),
            ),
    {
        let ghost original = edits@;
        let mut index = start;
        while index < end
            invariant
                self.wf(),
                self.edits_ok(edits@, *builder),
                start <= index <= end <= self.before@.len(),
                after_units_of(edits@) == after_units_of(original),
                sources_of(edits@) == sources_of(original),
                steps_of(edits@) == steps_of(original) + removed_steps(
                    self.before@,
                    self.partners.before@,
                    start as int,
                    index as int,
                ),
                removed_units_of(edits@) == unpaired_ids(
                    self.before@.take(index as int),
                    self.partners.before@.take(index as int),
                ),
            decreases end - index,
        {
            proof {
                lemma_unpaired_step(self.before@, self.partners.before@, index as int);
            }
            if self.partners.before[index].is_none() {
                let ghost earlier = edits@;
                let edit = UnitEdit::Removed { before: self.before[index].id };
                edits.push(edit);
                proof {
                    lemma_push_edit(earlier, edit);
                }
            }
            assert(steps_of(edits@) =~= steps_of(original) + removed_steps(
                self.before@,
                self.partners.before@,
                start as int,
                index + 1,
            ));
            index += 1;
        }
    }

    /// Add the after units up to a bound, matched or new.
    fn push_after(&self, builder: &mut Builder, edits: &mut Vec<UnitEdit>, start: usize, end: usize)
        requires
            self.wf(),
            old(builder).wf(self.scene),
            self.edits_ok(old(edits)@, *old(builder)),
            start <= end <= self.after@.len(),
            after_units_of(old(edits)@) == unit_ids(self.after@.take(start as int)),
            sources_of(old(edits)@) == partner_ids(self.before@, self.partners.after@, start as int),
        ensures
            final(builder).wf(self.scene),
            self.edits_ok(final(edits)@, *final(builder)),
            after_units_of(final(edits)@) == unit_ids(self.after@.take(end as int)),
            sources_of(final(edits)@) == partner_ids(self.before@, self.partners.after@, end as int),
            removed_units_of(final(edits)@) == removed_units_of(old(edits)@),
            steps_of(final(edits)@) == steps_of(old(edits)@) + current_steps(
                self.after@,
                start as int,
                end as int,
            ),
            is_flat(self.scene.pair.before) ==> final(builder).composites@
                == old(builder).composites@,
    {
        let ghost original = edits@;
        let ghost collected = builder.composites@;
        let mut index = start;
        while index < end
            invariant
                self.wf(),
                builder.wf(self.scene),
                self.edits_ok(edits@, *builder),
                start <= index <= end <= self.after@.len(),
                after_units_of(edits@) == unit_ids(self.after@.take(index as int)),
                sources_of(edits@) == partner_ids(self.before@, self.partners.after@, index as int),
                removed_units_of(edits@) == removed_units_of(original),
                steps_of(edits@) == steps_of(original) + current_steps(
                    self.after@,
                    start as int,
                    index as int,
                ),
                is_flat(self.scene.pair.before) ==> builder.composites@ == collected,
            decreases end - index,
        {
            proof {
                lemma_unpaired_step(self.after@, self.partners.after@, index as int);
            }
            match self.partners.after[index] {
                None => {
                    let ghost earlier = edits@;
                    let edit = UnitEdit::Added { after: self.after[index].id };
                    edits.push(edit);
                    proof {
                        lemma_push_edit(earlier, edit);
                    }
                },
                Some(before) => {
                    assert(self.partners.after@[index as int] == Some(before));
                    self.push_matched_unit(builder, edits, before, index);
                },
            }
            assert(sources_of(edits@) =~= partner_ids(
                self.before@,
                self.partners.after@,
                index + 1,
            ));
            assert(steps_of(edits@) =~= steps_of(original) + current_steps(
                self.after@,
                start as int,
                index + 1,
            ));
            index += 1;
        }
    }

    /// Add everything up to an anchor, and the anchor itself.
    fn push_up_to(
        &self,
        builder: &mut Builder,
        edits: &mut Vec<UnitEdit>,
        before_start: usize,
        after_start: usize,
        before: usize,
        after: usize,
    )
        requires
            self.wf(),
            old(builder).wf(self.scene),
            self.edits_ok(old(edits)@, *old(builder)),
            before_start <= before < self.before@.len(),
            after_start <= after < self.after@.len(),
            self.partners.before@[before as int] == Some(after),
            after_units_of(old(edits)@) == unit_ids(self.after@.take(after_start as int)),
            sources_of(old(edits)@) == partner_ids(self.before@, self.partners.after@, after_start as int),
            removed_units_of(old(edits)@) == unpaired_ids(
                self.before@.take(before_start as int),
                self.partners.before@.take(before_start as int),
            ),
        ensures
            final(builder).wf(self.scene),
            self.edits_ok(final(edits)@, *final(builder)),
            after_units_of(final(edits)@) == unit_ids(self.after@.take(after + 1)),
            sources_of(final(edits)@) == partner_ids(self.before@, self.partners.after@, after + 1),
            steps_of(final(edits)@) == steps_of(old(edits)@) + removed_steps(
                self.before@,
                self.partners.before@,
                before_start as int,
                before as int,
            ) + current_steps(self.after@, after_start as int, after + 1),
            removed_units_of(final(edits)@) == unpaired_ids(
                self.before@.take(before + 1),
                self.partners.before@.take(before + 1),
            ),
            is_flat(self.scene.pair.before) ==> final(builder).composites@
                == old(builder).composites@,
    {
        self.push_removed(builder, edits, before_start, before);
        self.push_after(builder, edits, after_start, after);
        self.push_matched_unit(builder, edits, before, after);
        proof {
            lemma_unpaired_step(self.before@, self.partners.before@, before as int);
            lemma_unpaired_step(self.after@, self.partners.after@, after as int);
            assert(self.partners.after@[after as int] == Some(before));
            assert(sources_of(edits@) =~= partner_ids(
                self.before@,
                self.partners.after@,
                after + 1,
            ));
            assert(steps_of(edits@) =~= steps_of(old(edits)@) + removed_steps(
                self.before@,
                self.partners.before@,
                before_start as int,
                before as int,
            ) + current_steps(self.after@, after_start as int, after + 1));
        }
    }

    /// Partners that fix the order of the script, ascending on both sides.
    fn anchor_pairs(&self) -> (pairs: Vec<OrderedMatch>)
        requires
            self.wf(),
        ensures
            monotone(pairs@),
            forall|k: int|
                0 <= k < pairs@.len() ==> (#[trigger] pairs@[k]).before < self.before@.len()
                    && pairs@[k].after < self.after@.len()
                    && self.partners.before@[pairs@[k].before as int] == Some(pairs@[k].after),
            exists|anchors: Seq<bool>| #[trigger]
                are_script_anchors(
                    anchors,
                    self.partners.before@,
                    self.before@,
                    self.stable@,
                ) && pairs@ == anchored_pairs(
                    anchors,
                    self.partners.before@,
                    self.partners.before@.len() as int,
                ),
    {
        let anchors = ordered_script_anchors(&self.partners.before, self.before, self.stable);
        let mut pairs: Vec<OrderedMatch> = Vec::new();
        let mut index: usize = 0;
        while index < anchors.len()
            invariant
                index <= anchors@.len(),
                anchors@.len() == self.before@.len(),
                self.partners.wf(self.before@.len() as int, self.after@.len() as int),
                forall|i: int|
                    0 <= i < anchors@.len() && #[trigger] anchors@[i]
                        ==> self.partners.before@[i] is Some,
                anchors_ascend(anchors@, self.partners.before@),
                pairs@ == anchored_pairs(anchors@, self.partners.before@, index as int),
                monotone(pairs@),
                forall|k: int|
                    0 <= k < pairs@.len() ==> (#[trigger] pairs@[k]).before < index
                        && anchors@[pairs@[k].before as int] && pairs@[k].after < self.after@.len()
                        && self.partners.before@[pairs@[k].before as int] == Some(pairs@[k].after),
            decreases anchors@.len() - index,
        {
            if anchors[index] {
                if let Some(after) = self.partners.before[index] {
                    assert(anchors@[index as int]);
                    pairs.push(OrderedMatch { before: index, after });
                }
            }
            index += 1;
        }
        assert(are_script_anchors(
            anchors@,
            self.partners.before@,
            self.before@,
            self.stable@,
        ));
        pairs
    }

    /// The edit script: every after unit once and in order, every unmatched before unit once
    /// and in order, and every pair of partners as one matched edit.
    #[verifier::rlimit(60)]
    pub fn unit_script(&self, builder: &mut Builder) -> (edits: Vec<UnitEdit>)
        requires
            self.wf(),
            old(builder).wf(self.scene),
        ensures
            final(builder).wf(self.scene),
            self.edits_ok(edits@, *final(builder)),
            after_units_of(edits@) == unit_ids(self.after@),
            sources_of(edits@) == partner_ids(
                self.before@,
                self.partners.after@,
                self.after@.len() as int,
            ),
            removed_units_of(edits@) == unpaired_ids(self.before@, self.partners.before@),
            follows_anchors(
                self.before@,
                self.partners.before@,
                self.after@,
                self.stable@,
                edits@,
            ),
            is_flat(self.scene.pair.before) ==> final(builder).composites@
                == old(builder).composites@,
    {
        let ghost collected = builder.composites@;
        let pairs = self.anchor_pairs();
        let mut edits: Vec<UnitEdit> = Vec::new();
        let mut before_start: usize = 0;
        let mut after_start: usize = 0;
        let mut index: usize = 0;
        proof {
            assert(unit_ids(self.after@.take(0)) =~= Seq::<NodeId>::empty());
            assert(self.before@.take(0) =~= Seq::<UnitRecord>::empty());
            assert(partner_ids(self.before@, self.partners.after@, 0) =~= Seq::empty());
            assert(steps_of(edits@) =~= Seq::empty());
        }
        while index < pairs.len()
            invariant
                self.wf(),
                builder.wf(self.scene),
                self.edits_ok(edits@, *builder),
                index <= pairs@.len(),
                monotone(pairs@),
                forall|k: int|
                    0 <= k < pairs@.len() ==> (#[trigger] pairs@[k]).before < self.before@.len()
                        && pairs@[k].after < self.after@.len()
                        && self.partners.before@[pairs@[k].before as int] == Some(pairs@[k].after),
                before_start <= self.before@.len(),
                after_start <= self.after@.len(),
                is_flat(self.scene.pair.before) ==> builder.composites@ == collected,
                index == 0 ==> before_start == 0 && after_start == 0,
                index > 0 ==> before_start == pairs@[index - 1].before + 1 && after_start
                    == pairs@[index - 1].after + 1,
                before_start == before_start_at(pairs@, index as int),
                after_start == after_start_at(pairs@, index as int),
                steps_of(edits@) == anchored_steps(
                    self.before@,
                    self.partners.before@,
                    self.after@,
                    pairs@,
                    index as int,
                ),
                after_units_of(edits@) == unit_ids(self.after@.take(after_start as int)),
                sources_of(edits@) == partner_ids(self.before@, self.partners.after@, after_start as int),
                removed_units_of(edits@) == unpaired_ids(
                    self.before@.take(before_start as int),
                    self.partners.before@.take(before_start as int),
                ),
            decreases pairs@.len() - index,
        {
            let pair = pairs[index];
            assert(pairs@[index as int] == pair);
            assert(pair.before < self.before.len() && pair.after < self.after.len());
            proof {
                if index > 0 {
                    assert(pairs@[index - 1].before < pairs@[index as int].before);
                    assert(pairs@[index - 1].after < pairs@[index as int].after);
                }
            }
            self.push_up_to(builder, &mut edits, before_start, after_start, pair.before, pair.after);
            before_start = pair.before + 1;
            after_start = pair.after + 1;
            index += 1;
        }
        self.push_removed(builder, &mut edits, before_start, self.before.len());
        self.push_after(builder, &mut edits, after_start, self.after.len());
        proof {
            assert(steps_of(edits@) =~= script_steps(
                self.before@,
                self.partners.before@,
                self.after@,
                pairs@,
            ));
            assert(self.after@.take(self.after@.len() as int) =~= self.after@);
            assert(self.before@.take(self.before@.len() as int) =~= self.before@);
            assert(self.partners.before@.take(self.before@.len() as int)
                =~= self.partners.before@);
        }
        edits
    }
}

} // verus!

//! Pair independently reviewed units by name, content, and position.

use crate::alignment::{
    has_end, increasing_subsequence_members, is_blocked, is_locality_chain,
    law_locality_chain_is_maximal, locality_first_matches, marks_longest_increasing, OrderedMatch,
};
use crate::correspondence::children::lemma_grows_chain;
use crate::correspondence::facts::{Facts, NodeFingerprints};
use crate::correspondence::keys::{key_views, ordered_key_matches, unordered_key_matches};
use crate::correspondence::partners::{
    all_claimed, free_at, indices_below, is_crossed, is_settled, is_taken, lemma_blocked_is_crossed,
    lemma_end_is_paired, lemma_monotone_one_to_one, lemma_settled_grows, new_pairs_from, repeated,
    spread, Partners,
};
use crate::correspondence::ranks::{is_keyed_pass, lemma_keyed_pass, lists_keyed};
use crate::span::Span;
use crate::syntax::{NodeId, ReviewMode, SyntaxTree};
use vstd::prelude::*;

verus! {

/// What unit pairing reads of one review unit.
#[derive(Clone, Copy)]
pub struct UnitRecord {
    pub id: NodeId,
    pub kind: usize,
    /// Interned name; leaf payload stays out of name matching.
    pub identity: Option<usize>,
    /// Whether the unit is one leaf.
    pub atomic: bool,
    pub decoration_owner: Option<NodeId>,
    pub prints: NodeFingerprints,
    pub mode: ReviewMode,
}

/// The records are those of the tree's review units, in preorder.
pub open spec fn records_describe(records: Seq<UnitRecord>, tree: SyntaxTree, facts: Facts) -> bool {
    &&& forall|k: int|
        0 <= k < records.len() ==> (#[trigger] records[k]).id < tree.nodes@.len()
            && tree.nodes@[records[k].id as int].review is Some && records[k].mode
            == tree.nodes@[records[k].id as int].review->0.mode && records[k].kind
            == facts.symbols@[records[k].id as int].kind && records[k].prints
            == facts.prints@[records[k].id as int] && records[k].decoration_owner
            == tree.nodes@[records[k].id as int].decoration_owner && records[k].atomic == (
        tree.nodes@[records[k].id as int].leaf is Some) && records[k].identity == (
        if tree.nodes@[records[k].id as int].leaf is None {
            facts.symbols@[records[k].id as int].identity
        } else {
            None
        })
    &&& forall|k: int, l: int|
        0 <= k < l < records.len() ==> (#[trigger] records[k]).id < (#[trigger] records[l]).id
    &&& lists_review_units(records, tree)
}

/// Ids of the units.
pub open spec fn unit_ids(units: Seq<UnitRecord>) -> Seq<NodeId> {
    units.map_values(|unit: UnitRecord| unit.id)
}

/// The units are exactly the tree's review units, in preorder.
#[verifier::opaque]
pub open spec fn lists_review_units(units: Seq<UnitRecord>, tree: SyntaxTree) -> bool {
    tree.is_review_list(unit_ids(units), tree.nodes@.len() as int)
}

/// Records of a tree's review units.
pub fn unit_records(tree: &SyntaxTree, facts: &Facts) -> (records: Vec<UnitRecord>)
    requires
        facts.fits(*tree),
    ensures
        records_describe(records@, *tree, *facts),
{
    let units = tree.review_units();
    let mut records: Vec<UnitRecord> = Vec::new();
    let mut index: usize = 0;
    while index < units.len()
        invariant
            facts.fits(*tree),
            tree.is_review_list(units@, tree.nodes@.len() as int),
            index <= units@.len(),
            records@.len() == index,
            forall|k: int|
                0 <= k < records@.len() ==> (#[trigger] records@[k]).id == units@[k]
                    && records@[k].id < tree.nodes@.len()
                    && tree.nodes@[records@[k].id as int].review is Some && records@[k].mode
                    == tree.nodes@[records@[k].id as int].review->0.mode && records@[k].kind
                    == facts.symbols@[records@[k].id as int].kind && records@[k].prints
                    == facts.prints@[records@[k].id as int] && records@[k].decoration_owner
                    == tree.nodes@[records@[k].id as int].decoration_owner && records@[k].atomic
                    == (tree.nodes@[records@[k].id as int].leaf is Some) && records@[k].identity
                    == (if tree.nodes@[records@[k].id as int].leaf is None {
                    facts.symbols@[records@[k].id as int].identity
                } else {
                    None
                }),
        decreases units@.len() - index,
    {
        let id = units[index];
        let node = tree.node(id);
        let mode = match node.review {
            Some(review) => review.mode,
            None => ReviewMode::Linewise,
        };
        let atomic = node.leaf.is_some();
        let symbols = facts.symbols[id];
        records.push(
            UnitRecord {
                id,
                kind: symbols.kind,
                identity: if atomic {
                    None
                } else {
                    symbols.identity
                },
                atomic,
                decoration_owner: node.decoration_owner,
                prints: facts.prints[id],
                mode,
            },
        );
        index += 1;
    }
    proof {
        reveal(lists_review_units);
        assert(unit_ids(records@) =~= units@);
    }
    records
}

/// Neither unit decorates another.
pub open spec fn both_plain(before: UnitRecord, after: UnitRecord) -> bool {
    before.decoration_owner is None && after.decoration_owner is None
}

/// Two named units with the same kind and name.
pub open spec fn same_name(before: UnitRecord, after: UnitRecord) -> bool {
    both_plain(before, after) && before.kind == after.kind && before.identity is Some && before.identity == after.identity
}

/// Two leaf units with the same content.
pub open spec fn same_atom(before: UnitRecord, after: UnitRecord) -> bool {
    both_plain(before, after) && before.atomic && after.atomic && before.prints.full == after.prints.full
}

/// Two units that may replace each other in place.
pub open spec fn compatible(before: UnitRecord, after: UnitRecord) -> bool {
    both_plain(before, after) && before.kind == after.kind && before.mode == after.mode
}

/// Two decorations of the same kind or content.
pub open spec fn same_decoration(before: UnitRecord, after: UnitRecord) -> bool {
    before.decoration_owner is Some && after.decoration_owner is Some && (before.prints.full
        == after.prints.full || before.kind == after.kind)
}

/// Two roots of their files.
pub open spec fn both_roots(
    before: UnitRecord,
    after: UnitRecord,
    before_root: NodeId,
    after_root: NodeId,
) -> bool {
    before.id == before_root && after.id == after_root
}

/// Why two units may be partners.
pub open spec fn paired_for_cause(
    before: UnitRecord,
    after: UnitRecord,
    before_root: NodeId,
    after_root: NodeId,
) -> bool {
    ||| both_roots(before, after, before_root, after_root)
    ||| same_name(before, after)
    ||| same_atom(before, after)
    ||| compatible(before, after)
    ||| same_decoration(before, after)
}

/// Every pair added since has a cause.
pub open spec fn pairs_since(
    later: Partners,
    earlier: Partners,
    before: Seq<UnitRecord>,
    after: Seq<UnitRecord>,
    cause: spec_fn(UnitRecord, UnitRecord) -> bool,
) -> bool {
    forall|i: int|
        0 <= i < later.before@.len() && (#[trigger] later.before@[i]) is Some
            && earlier.before@[i] is None ==> cause(before[i], after[later.before@[i]->0 as int])
}

/// Two undecorated units with the same kind and name are never both left over.
pub open spec fn names_paired(
    before: Seq<UnitRecord>,
    after: Seq<UnitRecord>,
    partners: Partners,
) -> bool {
    forall|i: int, j: int|
        0 <= i < before.len() && 0 <= j < after.len() && (
        #[trigger] before[i]).decoration_owner is None && (
        #[trigger] after[j]).decoration_owner is None && same_name(before[i], after[j])
            ==> is_taken(partners, i, j)
}

/// Two nameless undecorated leaf units with the same content are both left over only where a
/// pair crosses them.
pub open spec fn atoms_paired(
    before: Seq<UnitRecord>,
    after: Seq<UnitRecord>,
    partners: Partners,
) -> bool {
    forall|i: int, j: int|
        0 <= i < before.len() && 0 <= j < after.len() && (
        #[trigger] before[i]).decoration_owner is None && (
        #[trigger] after[j]).decoration_owner is None && before[i].identity is None
            && after[j].identity is None && same_atom(before[i], after[j]) ==> is_settled(
            partners,
            i,
            j,
        )
}

/// Two undecorated units that may replace each other are both left over only where a pair
/// crosses them.
pub open spec fn compatibles_paired(
    before: Seq<UnitRecord>,
    after: Seq<UnitRecord>,
    partners: Partners,
) -> bool {
    forall|i: int, j: int|
        0 <= i < before.len() && 0 <= j < after.len() && (
        #[trigger] before[i]).decoration_owner is None && (
        #[trigger] after[j]).decoration_owner is None && compatible(before[i], after[j])
            ==> is_settled(partners, i, j)
}

/// Two decorations of the owners with the same kind are both left over only where a pair
/// crosses them.
pub open spec fn owner_decorations_paired(
    before: Seq<UnitRecord>,
    after: Seq<UnitRecord>,
    before_owner: NodeId,
    after_owner: NodeId,
    partners: Partners,
) -> bool {
    forall|i: int, j: int|
        0 <= i < before.len() && 0 <= j < after.len() && (#[trigger] before[i]).decoration_owner
            == Some(before_owner) && (#[trigger] after[j]).decoration_owner == Some(after_owner)
            && before[i].kind == after[j].kind ==> is_settled(partners, i, j)
}

/// The decorations of every pair of owners are settled.
pub open spec fn decorations_paired(
    before: Seq<UnitRecord>,
    after: Seq<UnitRecord>,
    owners: Partners,
    partners: Partners,
    end: int,
) -> bool {
    forall|k: int|
        0 <= k < end && (#[trigger] owners.before@[k]) is Some ==> owner_decorations_paired(
            before,
            after,
            before[k].id,
            after[owners.before@[k]->0 as int].id,
            partners,
        )
}

/// What a step has settled, later steps keep.
proof fn lemma_units_settled_grow(
    before: Seq<UnitRecord>,
    after: Seq<UnitRecord>,
    later: Partners,
    earlier: Partners,
)
    requires
        later.grows(earlier),
        earlier.wf(before.len() as int, after.len() as int),
    ensures
        names_paired(before, after, earlier) ==> names_paired(before, after, later),
        atoms_paired(before, after, earlier) ==> atoms_paired(before, after, later),
        compatibles_paired(before, after, earlier) ==> compatibles_paired(before, after, later),
{
    assert forall|i: int, j: int|
        0 <= i < before.len() && 0 <= j < after.len() && is_settled(earlier, i, j) implies {
        &&& #[trigger] is_settled(later, i, j)
        &&& is_taken(earlier, i, j) ==> is_taken(later, i, j)
    } by {
        lemma_settled_grows(later, earlier, i, j);
    }
    if names_paired(before, after, earlier) {
        assert forall|i: int, j: int|
            0 <= i < before.len() && 0 <= j < after.len() && (
            #[trigger] before[i]).decoration_owner is None && (
            #[trigger] after[j]).decoration_owner is None && same_name(
                before[i],
                after[j],
            ) implies is_taken(later, i, j) by {
            assert(is_settled(earlier, i, j));
            assert(is_settled(later, i, j));
        }
    }
}

proof fn lemma_owner_decorations_grow(
    before: Seq<UnitRecord>,
    after: Seq<UnitRecord>,
    before_owner: NodeId,
    after_owner: NodeId,
    later: Partners,
    earlier: Partners,
)
    requires
        later.grows(earlier),
        earlier.wf(before.len() as int, after.len() as int),
        owner_decorations_paired(before, after, before_owner, after_owner, earlier),
    ensures
        owner_decorations_paired(before, after, before_owner, after_owner, later),
{
    assert forall|i: int, j: int|
        0 <= i < before.len() && 0 <= j < after.len() && (#[trigger] before[i]).decoration_owner
            == Some(before_owner) && (#[trigger] after[j]).decoration_owner == Some(after_owner)
            && before[i].kind == after[j].kind implies is_settled(later, i, j) by {
        lemma_settled_grows(later, earlier, i, j);
    }
}

/// A list that grew still holds what it held.
pub proof fn lemma_kept_listed(earlier: Seq<usize>, later: Seq<usize>)
    requires
        earlier.len() <= later.len(),
        forall|k: int| 0 <= k < earlier.len() ==> earlier[k] == #[trigger] later[k],
    ensures
        forall|value: usize| #[trigger] earlier.contains(value) ==> later.contains(value),
{
    assert forall|value: usize| #[trigger] earlier.contains(value) implies later.contains(
        value,
    ) by {
        let k = choose|k: int| 0 <= k < earlier.len() && earlier[k] == value;
        assert(later[k] == value);
    }
}

/// Kind and name of a free undecorated unit that has a name.
pub open spec fn name_key(units: Seq<UnitRecord>, partner: Seq<Option<usize>>) -> spec_fn(int) -> Option<
    Seq<usize>,
> {
    |i: int|
        if 0 <= i < units.len() && partner[i] is None && units[i].decoration_owner is None
            && units[i].identity is Some {
            Some(seq![units[i].kind, units[i].identity->0])
        } else {
            None
        }
}

/// Free undecorated units with a name, and their keys.
fn named_units(units: &Vec<UnitRecord>, partner: &Vec<Option<usize>>) -> (result: (
    Vec<usize>,
    Vec<Vec<usize>>,
))
    requires
        partner@.len() == units@.len(),
    ensures
        indices_below(result.0@, units@.len() as int),
        result.1@.len() == result.0@.len(),
        forall|k: int|
            0 <= k < result.0@.len() ==> units@[(#[trigger] result.0@[k]) as int].identity is Some
                && units@[result.0@[k] as int].decoration_owner is None && result.1@[k]@ == seq![
                units@[result.0@[k] as int].kind,
                units@[result.0@[k] as int].identity->0,
            ],
        spread(result.0@),
        free_at(partner@, result.0@),
        forall|i: int|
            0 <= i < units@.len() && (#[trigger] partner@[i]) is None
                && units@[i].decoration_owner is None && units@[i].identity is Some
                ==> result.0@.contains(i as usize),
{
    let mut indices: Vec<usize> = Vec::new();
    let mut keys: Vec<Vec<usize>> = Vec::new();
    let mut index: usize = 0;
    while index < units.len()
        invariant
            index <= units@.len(),
            partner@.len() == units@.len(),
            indices_below(indices@, index as int),
            spread(indices@),
            free_at(partner@, indices@),
            forall|i: int|
                0 <= i < index && (#[trigger] partner@[i]) is None
                    && units@[i].decoration_owner is None && units@[i].identity is Some
                    ==> indices@.contains(i as usize),
            keys@.len() == indices@.len(),
            forall|k: int|
                0 <= k < indices@.len() ==> units@[(
                #[trigger] indices@[k]) as int].identity is Some
                    && units@[indices@[k] as int].decoration_owner is None && keys@[k]@ == seq![
                    units@[indices@[k] as int].kind,
                    units@[indices@[k] as int].identity->0,
                ],
        decreases units@.len() - index,
    {
        let unit = units[index];
        let ghost earlier = indices@;
        if partner[index].is_none() && unit.decoration_owner.is_none() {
            if let Some(identity) = unit.identity {
                indices.push(index);
                let key = vec![unit.kind, identity];
                assert(key@ =~= seq![unit.kind, identity]);
                keys.push(key);
            }
        }
        proof {
            lemma_kept_listed(earlier, indices@);
            if indices@.len() > earlier.len() {
                assert(indices@[indices@.len() - 1] == index);
            }
        }
        index += 1;
    }
    (indices, keys)
}

/// Pair units with the same kind and name, repeated names in source order.
pub fn pair_keyed_units(before: &Vec<UnitRecord>, after: &Vec<UnitRecord>, partners: &mut Partners)
    requires
        old(partners).wf(before@.len() as int, after@.len() as int),
    ensures
        final(partners).wf(before@.len() as int, after@.len() as int),
        final(partners).grows(*old(partners)),
        pairs_since(
            *final(partners),
            *old(partners),
            before@,
            after@,
            |b: UnitRecord, a: UnitRecord| same_name(b, a),
        ),
        names_paired(before@, after@, *final(partners)),
        is_keyed_pass(
            *final(partners),
            *old(partners),
            name_key(before@, old(partners).before@),
            name_key(after@, old(partners).after@),
        ),
{
    let ghost start = *partners;
    let (before_indices, before_keys) = named_units(before, &partners.before);
    let (after_indices, after_keys) = named_units(after, &partners.after);
    let ghost left = key_views(before_keys@);
    let ghost right = key_views(after_keys@);
    let matches = unordered_key_matches(before_keys, after_keys);
    partners.claim_all(&before_indices, &after_indices, &matches);
    proof {
        assert(before.len() <= usize::MAX && after.len() <= usize::MAX);
        assert(before_indices.len() <= usize::MAX && after_indices.len() <= usize::MAX);
        assert(lists_keyed(
            before_indices@,
            left,
            name_key(before@, start.before@),
            before@.len() as int,
        ));
        assert(lists_keyed(
            after_indices@,
            right,
            name_key(after@, start.after@),
            after@.len() as int,
        ));
        lemma_keyed_pass(
            *partners,
            start,
            before_indices@,
            after_indices@,
            left,
            right,
            matches@,
            name_key(before@, start.before@),
            name_key(after@, start.after@),
        );
        assert forall|i: int, j: int|
            0 <= i < before@.len() && 0 <= j < after@.len() && (
            #[trigger] before@[i]).decoration_owner is None && (
            #[trigger] after@[j]).decoration_owner is None && same_name(
                before@[i],
                after@[j],
            ) implies is_taken(*partners, i, j) by {
            if start.before@[i] is None && start.after@[j] is None {
                assert(before_indices@.contains(i as usize));
                assert(after_indices@.contains(j as usize));
                let x = choose|x: int|
                    0 <= x < before_indices@.len() && before_indices@[x] == i as usize;
                let y = choose|y: int|
                    0 <= y < after_indices@.len() && after_indices@[y] == j as usize;
                assert(left[x] =~= right[y]);
                assert(has_end(matches@, x, y));
                lemma_end_is_paired(
                    *partners,
                    before_indices@,
                    after_indices@,
                    matches@,
                    x,
                    y,
                );
            }
        }
        assert forall|i: int|
            0 <= i < partners.before@.len() && (#[trigger] partners.before@[i]) is Some
                && start.before@[i] is None implies same_name(
            before@[i],
            after@[partners.before@[i]->0 as int],
        ) by {
            let k = choose|k: int|
                0 <= k < matches@.len() && before_indices@[(
                #[trigger] matches@[k]).before as int] == i
                    && after_indices@[matches@[k].after as int] == partners.before@[i]->0;
            let edge = matches@[k];
            assert(left[edge.before as int] == right[edge.after as int]);
            assert(left[edge.before as int][0] == before@[i].kind);
            assert(left[edge.before as int][1] == before@[i].identity->0);
            assert(before_indices@[edge.before as int] == i);
            assert(units_identity(before@, before_indices@[edge.before as int] as int));
            let a = after_indices@[edge.after as int] as int;
            assert(right[edge.after as int][0] == after@[a].kind);
            assert(right[edge.after as int][1] == after@[a].identity->0);
        }
    }
}

spec fn units_identity(units: Seq<UnitRecord>, index: int) -> bool {
    units[index].identity is Some
}

/// Free undecorated leaf units, and their contents.
fn atomic_units(units: &Vec<UnitRecord>, partner: &Vec<Option<usize>>) -> (result: (
    Vec<usize>,
    Vec<usize>,
))
    requires
        partner@.len() == units@.len(),
    ensures
        indices_below(result.0@, units@.len() as int),
        result.1@.len() == result.0@.len(),
        forall|k: int|
            0 <= k < result.0@.len() ==> units@[(#[trigger] result.0@[k]) as int].atomic
                && units@[result.0@[k] as int].decoration_owner is None && result.1@[k] == units@[result.0@[k] as int].prints.full,
        forall|k: int|
            0 <= k < result.0@.len() ==> units@[(
            #[trigger] result.0@[k]) as int].identity is None,
        spread(result.0@),
        free_at(partner@, result.0@),
        forall|i: int|
            0 <= i < units@.len() && (#[trigger] partner@[i]) is None
                && units@[i].decoration_owner is None && units@[i].identity is None
                && units@[i].atomic ==> result.0@.contains(i as usize),
{
    let mut indices: Vec<usize> = Vec::new();
    let mut values: Vec<usize> = Vec::new();
    let mut index: usize = 0;
    while index < units.len()
        invariant
            index <= units@.len(),
            partner@.len() == units@.len(),
            indices_below(indices@, index as int),
            spread(indices@),
            free_at(partner@, indices@),
            forall|i: int|
                0 <= i < index && (#[trigger] partner@[i]) is None
                    && units@[i].decoration_owner is None && units@[i].identity is None
                    && units@[i].atomic ==> indices@.contains(i as usize),
            values@.len() == indices@.len(),
            forall|k: int|
                0 <= k < indices@.len() ==> units@[(#[trigger] indices@[k]) as int].atomic
                    && units@[indices@[k] as int].decoration_owner is None && values@[k] == units@[indices@[k] as int].prints.full,
            forall|k: int|
                0 <= k < indices@.len() ==> units@[(
                #[trigger] indices@[k]) as int].identity is None,
        decreases units@.len() - index,
    {
        let unit = units[index];
        let ghost earlier = indices@;
        if partner[index].is_none() && unit.identity.is_none() && unit.atomic
            && unit.decoration_owner.is_none() {
            indices.push(index);
            values.push(unit.prints.full);
        }
        proof {
            lemma_kept_listed(earlier, indices@);
            if indices@.len() > earlier.len() {
                assert(indices@[indices@.len() - 1] == index);
            }
        }
        index += 1;
    }
    (indices, values)
}

/// A free leaf unit without a name that decorates nothing.
pub open spec fn is_free_atom(
    units: Seq<UnitRecord>,
    partner: Seq<Option<usize>>,
    index: int,
) -> bool {
    &&& partner[index] is None
    &&& units[index].decoration_owner is None
    &&& units[index].identity is None
    &&& units[index].atomic
}

/// The free leaf units, in order.
pub open spec fn lists_atoms(
    units: Seq<UnitRecord>,
    partner: Seq<Option<usize>>,
    indices: Seq<usize>,
) -> bool {
    &&& spread(indices)
    &&& forall|k: int|
        0 <= k < indices.len() ==> (#[trigger] indices[k]) < units.len() && is_free_atom(
            units,
            partner,
            indices[k] as int,
        )
    &&& forall|i: int|
        0 <= i < units.len() && #[trigger] is_free_atom(units, partner, i) ==> indices.contains(
            i as usize,
        )
}

/// Contents of the units.
pub open spec fn contents_at(units: Seq<UnitRecord>, indices: Seq<usize>) -> Seq<usize> {
    Seq::new(indices.len(), |k: int| units[indices[k] as int].prints.full)
}

/// A chain of nearest pairs of equal content among the free leaf units.
pub open spec fn chains_atoms(
    before: Seq<UnitRecord>,
    after: Seq<UnitRecord>,
    earlier: Partners,
    before_indices: Seq<usize>,
    after_indices: Seq<usize>,
    matches: Seq<OrderedMatch>,
) -> bool {
    &&& lists_atoms(before, earlier.before@, before_indices)
    &&& lists_atoms(after, earlier.after@, after_indices)
    &&& is_locality_chain(
        matches,
        contents_at(before, before_indices),
        contents_at(after, after_indices),
    )
}

/// New pairs are those of a chain of nearest pairs.
pub open spec fn is_atomic_pass(
    before: Seq<UnitRecord>,
    after: Seq<UnitRecord>,
    earlier: Partners,
    later: Partners,
) -> bool {
    exists|before_indices: Seq<usize>, after_indices: Seq<usize>, matches: Seq<OrderedMatch>|
        #[trigger] chains_atoms(before, after, earlier, before_indices, after_indices, matches)
            && new_pairs_from(later, earlier, before_indices, after_indices, matches)
            && all_claimed(later, before_indices, after_indices, matches)
}

/// Pair atomic units by nearby exact content before attempting positional replacements.
pub fn pair_atomic_units(before: &Vec<UnitRecord>, after: &Vec<UnitRecord>, partners: &mut Partners)
    requires
        old(partners).wf(before@.len() as int, after@.len() as int),
    ensures
        final(partners).wf(before@.len() as int, after@.len() as int),
        final(partners).grows(*old(partners)),
        pairs_since(
            *final(partners),
            *old(partners),
            before@,
            after@,
            |b: UnitRecord, a: UnitRecord| same_atom(b, a),
        ),
        atoms_paired(before@, after@, *final(partners)),
        is_atomic_pass(before@, after@, *old(partners), *final(partners)),
{
    let ghost start = *partners;
    let (before_indices, before_values) = atomic_units(before, &partners.before);
    let (after_indices, after_values) = atomic_units(after, &partners.after);
    let matches = locality_first_matches(&before_values, &after_values);
    proof {
        lemma_monotone_one_to_one(matches@);
    }
    partners.claim_all(&before_indices, &after_indices, &matches);
    proof {
        assert(before.len() <= usize::MAX && after.len() <= usize::MAX);
        assert(before_values.len() <= usize::MAX && after_values.len() <= usize::MAX);
        assert(before_values@ =~= contents_at(before@, before_indices@));
        assert(after_values@ =~= contents_at(after@, after_indices@));
        assert(chains_atoms(
            before@,
            after@,
            start,
            before_indices@,
            after_indices@,
            matches@,
        ));
        assert forall|i: int, j: int|
            0 <= i < before@.len() && 0 <= j < after@.len() && (
            #[trigger] before@[i]).decoration_owner is None && (
            #[trigger] after@[j]).decoration_owner is None && before@[i].identity is None
                && after@[j].identity is None && same_atom(
                before@[i],
                after@[j],
            ) implies is_settled(*partners, i, j) by {
            if start.before@[i] is None && start.after@[j] is None {
                assert(before_indices@.contains(i as usize));
                assert(after_indices@.contains(j as usize));
                let x = choose|x: int|
                    0 <= x < before_indices@.len() && before_indices@[x] == i as usize;
                let y = choose|y: int|
                    0 <= y < after_indices@.len() && after_indices@[y] == j as usize;
                assert(before_values@[x] == after_values@[y]);
                law_locality_chain_is_maximal(
                    matches@,
                    before_values@,
                    after_values@,
                    x,
                    y,
                );
                lemma_blocked_is_crossed(
                    *partners,
                    before_indices@,
                    after_indices@,
                    matches@,
                    x,
                    y,
                );
            }
        }
        assert forall|i: int|
            0 <= i < partners.before@.len() && (#[trigger] partners.before@[i]) is Some
                && start.before@[i] is None implies same_atom(
            before@[i],
            after@[partners.before@[i]->0 as int],
        ) by {
            let k = choose|k: int|
                0 <= k < matches@.len() && before_indices@[(
                #[trigger] matches@[k]).before as int] == i
                    && after_indices@[matches@[k].after as int] == partners.before@[i]->0;
            let edge = matches@[k];
            assert(before_values@[edge.before as int] == after_values@[edge.after as int]);
            assert(before_indices@[edge.before as int] == i);
        }
    }
}

/// Matched units below `end` that are chosen, in order.
pub open spec fn matched_indices(
    partner: Seq<Option<usize>>,
    chosen: Seq<bool>,
    end: int,
) -> Seq<usize>
    decreases end,
{
    if end <= 0 {
        Seq::empty()
    } else if partner[end - 1] is Some && chosen[end - 1] {
        matched_indices(partner, chosen, end - 1).push((end - 1) as usize)
    } else {
        matched_indices(partner, chosen, end - 1)
    }
}

/// Among the chosen matched units, the flags mark a longest selection in after order.
pub open spec fn flags_longest(
    flags: Seq<bool>,
    partner: Seq<Option<usize>>,
    chosen: Seq<bool>,
) -> bool {
    let indices = matched_indices(partner, chosen, partner.len() as int);
    marks_longest_increasing(
        Seq::new(indices.len(), |k: int| flags[indices[k] as int]),
        Seq::new(indices.len(), |k: int| partner[indices[k] as int]->0),
    )
}

/// Units that decorate nothing.
pub open spec fn undecorated(units: Seq<UnitRecord>) -> Seq<bool> {
    Seq::new(units.len(), |i: int| units[i].decoration_owner is None)
}

/// Noncrossing partners of undecorated units: a longest selection in after order.
pub fn ordered_unit_anchors(partner: &Vec<Option<usize>>, before: &Vec<UnitRecord>) -> (anchors: Vec<
    bool,
>)
    requires
        partner@.len() == before@.len(),
    ensures
        anchors@.len() == partner@.len(),
        forall|i: int|
            0 <= i < anchors@.len() && #[trigger] anchors@[i] ==> partner@[i] is Some
                && before@[i].decoration_owner is None,
        anchors_ascend(anchors@, partner@),
        flags_longest(anchors@, partner@, undecorated(before@)),
{
    let mut indices: Vec<usize> = Vec::new();
    let mut order: Vec<usize> = Vec::new();
    let mut index: usize = 0;
    while index < partner.len()
        invariant
            index <= partner@.len(),
            partner@.len() == before@.len(),
            order@.len() == indices@.len(),
            indices@ == matched_indices(partner@, undecorated(before@), index as int),
            forall|k: int|
                0 <= k < indices@.len() ==> (#[trigger] indices@[k]) < index
                    && partner@[indices@[k] as int] == Some(order@[k])
                    && before@[indices@[k] as int].decoration_owner is None,
            forall|k: int, l: int|
                0 <= k < l < indices@.len() ==> (#[trigger] indices@[k]) < (
                #[trigger] indices@[l]),
        decreases partner@.len() - index,
    {
        if let Some(after) = partner[index] {
            if before[index].decoration_owner.is_none() {
                indices.push(index);
                order.push(after);
            }
        }
        index += 1;
    }
    let members = increasing_subsequence_members(&order);
    let mut anchors = repeated(false, partner.len());
    let mut position: usize = 0;
    while position < indices.len()
        invariant
            position <= indices@.len(),
            order@.len() == indices@.len(),
            members@.len() == order@.len(),
            anchors@.len() == partner@.len(),
            forall|k: int|
                0 <= k < indices@.len() ==> (#[trigger] indices@[k]) < partner@.len()
                    && partner@[indices@[k] as int] == Some(order@[k])
                    && before@[indices@[k] as int].decoration_owner is None,
            forall|k: int, l: int|
                0 <= k < l < indices@.len() ==> (#[trigger] indices@[k]) < (
                #[trigger] indices@[l]),
            forall|i: int|
                0 <= i < anchors@.len() && #[trigger] anchors@[i] ==> exists|k: int|
                    0 <= k < position && (#[trigger] indices@[k]) == i && members@[k],
            forall|k: int|
                0 <= k < position ==> anchors@[(#[trigger] indices@[k]) as int] == members@[k],
        decreases indices@.len() - position,
    {
        let ghost earlier = anchors@;
        anchors.set(indices[position], members[position]);
        proof {
            assert forall|i: int|
                0 <= i < anchors@.len() && #[trigger] anchors@[i] implies exists|k: int|
                0 <= k < position + 1 && (#[trigger] indices@[k]) == i && members@[k] by {
                if i == indices@[position as int] {
                    assert(indices@[position as int] == i);
                } else {
                    assert(earlier[i]);
                    let k = choose|k: int|
                        0 <= k < position && (#[trigger] indices@[k]) == i && members@[k];
                    assert(indices@[k] == i);
                }
            }
        }
        position += 1;
    }
    proof {
        assert(Seq::new(indices@.len(), |k: int| anchors@[indices@[k] as int]) =~= members@);
        assert(Seq::new(indices@.len(), |k: int| partner@[indices@[k] as int]->0) =~= order@);
        assert forall|i: int, j: int|
            0 <= i < j < anchors@.len() && #[trigger] anchors@[i]
                && #[trigger] anchors@[j] implies partner@[i] is Some && partner@[j] is Some
            && partner@[i]->0 < partner@[j]->0 by {
            let k = choose|k: int|
                0 <= k < indices@.len() && (#[trigger] indices@[k]) == i && members@[k];
            let l = choose|l: int|
                0 <= l < indices@.len() && (#[trigger] indices@[l]) == j && members@[l];
            assert(indices@[k] == i && indices@[l] == j);
            if l <= k {
                if l < k {
                    assert(indices@[l] < indices@[k]);
                }
                assert(false);
            }
            lemma_marked_values_ascend(members@, order@, k, l);
        }
    }
    anchors
}

/// Marked positions of a longest increasing selection hold ascending values.
pub proof fn lemma_marked_values_ascend(members: Seq<bool>, values: Seq<usize>, k: int, l: int)
    requires
        marks_longest_increasing(members, values),
        0 <= k < l < members.len(),
        members[k],
        members[l],
    ensures
        values[k] < values[l],
{
    let picked = choose|picked: Seq<int>|
        #![trigger crate::alignment::marks_exactly(members, picked)]
        crate::alignment::marks_exactly(members, picked)
            && crate::alignment::is_increasing_selection(values, picked) && forall|other: Seq<int>|
            crate::alignment::is_increasing_selection(values, other) ==> other.len()
                <= picked.len();
    assert(picked.contains(k) && picked.contains(l));
    let u = choose|u: int| 0 <= u < picked.len() && picked[u] == k;
    let v = choose|v: int| 0 <= v < picked.len() && picked[v] == l;
    if v <= u {
        if v < u {
            assert(picked[v] < picked[u]);
        }
        assert(false);
    }
    assert(values[picked[u]] < values[picked[v]]);
}

/// Marked partners ascend with their indices.
pub open spec fn anchors_ascend(anchors: Seq<bool>, partner: Seq<Option<usize>>) -> bool {
    forall|i: int, j: int|
        0 <= i < j < anchors.len() && #[trigger] anchors[i] && #[trigger] anchors[j]
            ==> partner[i] is Some && partner[j] is Some && partner[i]->0 < partner[j]->0
}

/// Free undecorated units of a gap, and their keys.
fn gap_units(
    units: &Vec<UnitRecord>,
    partner: &Vec<Option<usize>>,
    start: usize,
    end: usize,
) -> (result: (Vec<usize>, Vec<Vec<usize>>))
    requires
        partner@.len() == units@.len(),
        end <= units@.len(),
    ensures
        indices_below(result.0@, units@.len() as int),
        result.1@.len() == result.0@.len(),
        forall|k: int|
            0 <= k < result.0@.len() ==> start <= (#[trigger] result.0@[k]) < end
                && units@[result.0@[k] as int].decoration_owner is None && result.1@[k]@ == seq![
                units@[result.0@[k] as int].kind,
                mode_code(units@[result.0@[k] as int].mode),
            ],
        spread(result.0@),
        free_at(partner@, result.0@),
        forall|i: int|
            start <= i < end && (#[trigger] partner@[i]) is None
                && units@[i].decoration_owner is None ==> result.0@.contains(i as usize),
{
    let mut indices: Vec<usize> = Vec::new();
    let mut keys: Vec<Vec<usize>> = Vec::new();
    let mut index: usize = start;
    while index < end
        invariant
            start <= index,
            end <= units@.len(),
            partner@.len() == units@.len(),
            indices_below(indices@, index as int),
            start < index ==> index <= end,
            spread(indices@),
            free_at(partner@, indices@),
            forall|i: int|
                start <= i < index && (#[trigger] partner@[i]) is None
                    && units@[i].decoration_owner is None ==> indices@.contains(i as usize),
            keys@.len() == indices@.len(),
            forall|k: int|
                0 <= k < indices@.len() ==> start <= (#[trigger] indices@[k]) < end
                    && units@[indices@[k] as int].decoration_owner is None && keys@[k]@ == seq![
                    units@[indices@[k] as int].kind,
                    mode_code(units@[indices@[k] as int].mode),
                ],
        decreases end - index,
    {
        let unit = units[index];
        let ghost earlier = indices@;
        if partner[index].is_none() && unit.decoration_owner.is_none() {
            indices.push(index);
            let key = vec![unit.kind, mode_number(unit.mode)];
            assert(key@ =~= seq![unit.kind, mode_code(unit.mode)]);
            keys.push(key);
        }
        proof {
            lemma_kept_listed(earlier, indices@);
            if indices@.len() > earlier.len() {
                assert(indices@[indices@.len() - 1] == index);
            }
        }
        index += 1;
    }
    (indices, keys)
}

pub open spec fn mode_code(mode: ReviewMode) -> usize {
    match mode {
        ReviewMode::StructureAware => 0,
        ReviewMode::Compact => 1,
        ReviewMode::Linewise => 2,
    }
}

fn mode_number(mode: ReviewMode) -> (code: usize)
    ensures
        code == mode_code(mode),
{
    match mode {
        ReviewMode::StructureAware => 0,
        ReviewMode::Compact => 1,
        ReviewMode::Linewise => 2,
    }
}

/// Undecorated compatible units of a gap are both left over only where a pair crosses them.
spec fn gap_settled(
    before: Seq<UnitRecord>,
    after: Seq<UnitRecord>,
    partners: Partners,
    before_gap: Span,
    after_gap: Span,
) -> bool {
    forall|i: int, j: int|
        before_gap.has(i) && after_gap.has(j) && (#[trigger] before[i]).decoration_owner is None && (
        #[trigger] after[j]).decoration_owner is None && compatible(before[i], after[j])
            ==> is_settled(partners, i, j)
}

/// Pair the compatible units of one gap in order.
fn pair_gap(
    before: &Vec<UnitRecord>,
    after: &Vec<UnitRecord>,
    before_gap: Span,
    after_gap: Span,
    partners: &mut Partners,
)
    requires
        old(partners).wf(before@.len() as int, after@.len() as int),
        before_gap.end <= before@.len(),
        after_gap.end <= after@.len(),
    ensures
        final(partners).wf(before@.len() as int, after@.len() as int),
        final(partners).grows(*old(partners)),
        pairs_since(
            *final(partners),
            *old(partners),
            before@,
            after@,
            |b: UnitRecord, a: UnitRecord| compatible(b, a),
        ),
        gap_settled(before@, after@, *final(partners), before_gap, after_gap),
        forall|i: int|
            0 <= i < final(partners).before@.len() && old(partners).before@[i] is None && (
            #[trigger] final(partners).before@[i]) is Some ==> before_gap.has(i) && after_gap.has(
                final(partners).before@[i]->0 as int,
            ),
{
    let (before_indices, before_keys) = gap_units(
        before,
        &partners.before,
        before_gap.start,
        before_gap.end,
    );
    let (after_indices, after_keys) = gap_units(
        after,
        &partners.after,
        after_gap.start,
        after_gap.end,
    );
    let ghost left = key_views(before_keys@);
    let ghost right = key_views(after_keys@);
    let matches = ordered_key_matches(before_keys, after_keys);
    let ghost earlier = *partners;
    proof {
        lemma_monotone_one_to_one(matches@);
    }
    partners.claim_all(&before_indices, &after_indices, &matches);
    proof {
        assert(before.len() <= usize::MAX && after.len() <= usize::MAX);
        assert forall|i: int, j: int|
            before_gap.has(i) && after_gap.has(j) && (
            #[trigger] before@[i]).decoration_owner is None && (
            #[trigger] after@[j]).decoration_owner is None && compatible(
                before@[i],
                after@[j],
            ) implies is_settled(*partners, i, j) by {
            if !is_taken(*partners, i, j) {
                assert(earlier.before@[i] is None && earlier.after@[j] is None);
                assert(before_indices@.contains(i as usize));
                assert(after_indices@.contains(j as usize));
                let x = choose|x: int|
                    0 <= x < before_indices@.len() && before_indices@[x] == i as usize;
                let y = choose|y: int|
                    0 <= y < after_indices@.len() && after_indices@[y] == j as usize;
                assert(left[x] =~= right[y]);
                assert(is_blocked(matches@, x, y));
                lemma_blocked_is_crossed(
                    *partners,
                    before_indices@,
                    after_indices@,
                    matches@,
                    x,
                    y,
                );
            }
        }
        assert forall|i: int|
            0 <= i < partners.before@.len() && (#[trigger] partners.before@[i]) is Some
                && earlier.before@[i] is None implies compatible(
            before@[i],
            after@[partners.before@[i]->0 as int],
        ) by {
            let k = choose|k: int|
                0 <= k < matches@.len() && before_indices@[(
                #[trigger] matches@[k]).before as int] == i
                    && after_indices@[matches@[k].after as int] == partners.before@[i]->0;
            let edge = matches@[k];
            assert(left[edge.before as int] == right[edge.after as int]);
            assert(before_indices@[edge.before as int] == i);
            assert(left[edge.before as int][0] == before@[i].kind);
            assert(left[edge.before as int][1] == mode_code(before@[i].mode));
            let a = after_indices@[edge.after as int] as int;
            assert(right[edge.after as int][0] == after@[a].kind);
            assert(right[edge.after as int][1] == mode_code(after@[a].mode));
        }
    }
}

/// Undecorated compatible units before an index are both left over only where a pair crosses
/// them.
spec fn settled_before(
    before: Seq<UnitRecord>,
    after: Seq<UnitRecord>,
    partners: Partners,
    end: int,
) -> bool {
    forall|i: int, j: int|
        0 <= i < end && 0 <= j < after.len() && (#[trigger] before[i]).decoration_owner is None && (
        #[trigger] after[j]).decoration_owner is None && compatible(before[i], after[j])
            ==> is_settled(partners, i, j)
}

/// A settled gap between two anchors settles everything up to its end.
proof fn lemma_gap_settles(
    before: Seq<UnitRecord>,
    after: Seq<UnitRecord>,
    earlier: Partners,
    partners: Partners,
    before_gap: Span,
    after_gap: Span,
)
    requires
        earlier.wf(before.len() as int, after.len() as int),
        partners.wf(before.len() as int, after.len() as int),
        partners.grows(earlier),
        before_gap.start <= before_gap.end <= before.len(),
        after_gap.start <= after_gap.end <= after.len(),
        settled_before(before, after, earlier, before_gap.start as int),
        gap_settled(before, after, partners, before_gap, after_gap),
        before_gap.start == 0 ==> after_gap.start == 0,
        before_gap.start > 0 ==> after_gap.start > 0 && partners.before@[before_gap.start - 1]
            == Some((after_gap.start - 1) as usize),
        before_gap.end < before.len() ==> partners.before@[before_gap.end as int] == Some(
            after_gap.end,
        ),
        before_gap.end == before.len() ==> after_gap.end == after.len(),
    ensures
        settled_before(before, after, partners, before_gap.end as int),
        before_gap.end < before.len() ==> settled_before(
            before,
            after,
            partners,
            before_gap.end + 1,
        ),
{
    assert forall|i: int, j: int|
        0 <= i < before_gap.end && 0 <= j < after.len() && (
        #[trigger] before[i]).decoration_owner is None && (
        #[trigger] after[j]).decoration_owner is None && compatible(
            before[i],
            after[j],
        ) implies is_settled(partners, i, j) by {
        if i < before_gap.start {
            lemma_settled_grows(partners, earlier, i, j);
        } else if !is_taken(partners, i, j) {
            if j < after_gap.start {
                assert(partners.before@[before_gap.start - 1] is Some);
                assert(partners.after@[after_gap.start - 1] is Some);
                assert(is_crossed(partners, i, j));
            } else if j >= after_gap.end {
                assert(partners.before@[before_gap.end as int] is Some);
                assert(partners.after@[after_gap.end as int] is Some);
                assert(is_crossed(partners, i, j));
            } else {
                assert(before_gap.has(i) && after_gap.has(j));
            }
        }
    }
}

proof fn lemma_compatible_chain(
    later: Partners,
    middle: Partners,
    earlier: Partners,
    before: Seq<UnitRecord>,
    after: Seq<UnitRecord>,
)
    requires
        later.grows(middle),
        middle.grows(earlier),
        pairs_since(
            later,
            middle,
            before,
            after,
            |b: UnitRecord, a: UnitRecord| compatible(b, a),
        ),
        pairs_since(
            middle,
            earlier,
            before,
            after,
            |b: UnitRecord, a: UnitRecord| compatible(b, a),
        ),
    ensures
        later.grows(earlier),
        pairs_since(
            later,
            earlier,
            before,
            after,
            |b: UnitRecord, a: UnitRecord| compatible(b, a),
        ),
{
    lemma_grows_chain(later, middle, earlier);
    assert forall|i: int|
        0 <= i < later.before@.len() && (#[trigger] later.before@[i]) is Some
            && earlier.before@[i] is None implies compatible(
        before[i],
        after[later.before@[i]->0 as int],
    ) by {
        if middle.before@[i] is Some {
            assert(later.before@[i] == middle.before@[i]);
        }
    }
}

/// The new pair lies on the same side of the anchor in both revisions.
pub open spec fn keeps_side(
    earlier: Partners,
    later: Partners,
    anchor: int,
    index: int,
) -> bool {
    index < anchor <==> later.before@[index]->0 < earlier.before@[anchor]->0
}

/// No new pair crosses an anchor.
pub open spec fn keeps_sides(anchors: Seq<bool>, earlier: Partners, later: Partners) -> bool {
    forall|anchor: int, index: int|
        #![trigger anchors[anchor], later.before@[index]]
        0 <= anchor < anchors.len() && anchors[anchor] && 0 <= index < later.before@.len()
            && earlier.before@[index] is None && later.before@[index] is Some ==> keeps_side(
            earlier,
            later,
            anchor,
            index,
        )
}

/// New pairs stay in the gaps between a longest selection of undecorated partners in order.
pub open spec fn fills_gaps(before: Seq<UnitRecord>, earlier: Partners, later: Partners) -> bool {
    exists|anchors: Seq<bool>|
        anchors.len() == before.len() && #[trigger] flags_longest(
            anchors,
            earlier.before@,
            undecorated(before),
        ) && keeps_sides(anchors, earlier, later)
}

/// A gap between two anchors keeps sides.
proof fn lemma_gap_keeps_sides(
    anchors: Seq<bool>,
    start: Partners,
    earlier: Partners,
    later: Partners,
    before_gap: Span,
    after_gap: Span,
    before_len: int,
    after_len: int,
)
    requires
        start.wf(before_len, after_len),
        earlier.wf(before_len, after_len),
        later.wf(before_len, after_len),
        anchors.len() == before_len,
        earlier.grows(start),
        later.grows(earlier),
        anchors_ascend(anchors, start.before@),
        keeps_sides(anchors, start, earlier),
        before_gap.start <= before_gap.end <= before_len,
        forall|a: int| before_gap.start <= a < before_gap.end ==> !#[trigger] anchors[a],
        before_gap.start > 0 ==> anchors[before_gap.start - 1] && after_gap.start > 0
            && start.before@[before_gap.start - 1] == Some((after_gap.start - 1) as usize),
        before_gap.end < before_len ==> anchors[before_gap.end as int]
            && start.before@[before_gap.end as int] == Some(after_gap.end),
        forall|i: int|
            0 <= i < later.before@.len() && earlier.before@[i] is None && (
            #[trigger] later.before@[i]) is Some ==> before_gap.has(i) && after_gap.has(
                later.before@[i]->0 as int,
            ),
    ensures
        keeps_sides(anchors, start, later),
{
    assert forall|anchor: int, index: int|
        #![trigger anchors[anchor], later.before@[index]]
        0 <= anchor < anchors.len() && anchors[anchor] && 0 <= index < later.before@.len()
            && start.before@[index] is None && later.before@[index] is Some implies keeps_side(
        start,
        later,
        anchor,
        index,
    ) by {
        if earlier.before@[index] is Some {
            assert(later.before@[index] == earlier.before@[index]);
            assert(keeps_side(start, earlier, anchor, index));
        } else {
            assert(before_gap.has(index));
            if anchor < before_gap.start - 1 {
                assert(start.before@[anchor]->0 < start.before@[before_gap.start - 1]->0);
            }
            if anchor > before_gap.end {
                assert(start.before@[before_gap.end as int]->0 < start.before@[anchor]->0);
            }
        }
    }
}

/// Pair remaining compatible units within gaps between established matches.
pub fn pair_compatible_units(
    before: &Vec<UnitRecord>,
    after: &Vec<UnitRecord>,
    partners: &mut Partners,
)
    requires
        old(partners).wf(before@.len() as int, after@.len() as int),
    ensures
        final(partners).wf(before@.len() as int, after@.len() as int),
        final(partners).grows(*old(partners)),
        pairs_since(
            *final(partners),
            *old(partners),
            before@,
            after@,
            |b: UnitRecord, a: UnitRecord| compatible(b, a),
        ),
        compatibles_paired(before@, after@, *final(partners)),
        fills_gaps(before@, *old(partners), *final(partners)),
{
    let ghost start = *partners;
    let stable = ordered_unit_anchors(&partners.before, before);
    let mut before_start: usize = 0;
    let mut after_start: usize = 0;
    let mut index: usize = 0;
    while index < before.len()
        invariant
            partners.wf(before@.len() as int, after@.len() as int),
            partners.grows(start),
            stable@.len() == before@.len(),
            start.wf(before@.len() as int, after@.len() as int),
            forall|i: int|
                0 <= i < stable@.len() && #[trigger] stable@[i] ==> start.before@[i] is Some,
            anchors_ascend(stable@, start.before@),
            before_start <= index <= before@.len(),
            after_start <= after@.len(),
            before_start == 0 ==> after_start == 0,
            before_start > 0 ==> stable@[before_start - 1] && after_start > 0
                && start.before@[before_start - 1] == Some((after_start - 1) as usize),
            settled_before(before@, after@, *partners, before_start as int),
            keeps_sides(stable@, start, *partners),
            forall|a: int| before_start <= a < index ==> !#[trigger] stable@[a],
            pairs_since(
                *partners,
                start,
                before@,
                after@,
                |b: UnitRecord, a: UnitRecord| compatible(b, a),
            ),
        decreases before@.len() - index,
    {
        if stable[index] {
            if let Some(after_end) = partners.before[index] {
                proof {
                    assert(partners.before@[index as int] == Some(after_end));
                    assert(after_end < after@.len() && after.len() <= usize::MAX);
                    assert(start.before@[index as int] == Some(after_end));
                    if before_start > 0 {
                        assert(stable@[before_start - 1] && stable@[index as int]);
                    }
                }
                let ghost earlier = *partners;
                let before_gap = Span { start: before_start, end: index };
                let after_gap = Span { start: after_start, end: after_end };
                pair_gap(before, after, before_gap, after_gap, partners);
                proof {
                    lemma_compatible_chain(*partners, earlier, start, before@, after@);
                    lemma_gap_settles(before@, after@, earlier, *partners, before_gap, after_gap);
                    lemma_gap_keeps_sides(
                        stable@,
                        start,
                        earlier,
                        *partners,
                        before_gap,
                        after_gap,
                        before@.len() as int,
                        after@.len() as int,
                    );
                }
                before_start = index + 1;
                after_start = after_end + 1;
            }
        }
        index += 1;
    }
    let ghost earlier = *partners;
    let before_gap = Span { start: before_start, end: before.len() };
    let after_gap = Span { start: after_start, end: after.len() };
    pair_gap(before, after, before_gap, after_gap, partners);
    proof {
        lemma_compatible_chain(*partners, earlier, start, before@, after@);
        lemma_gap_settles(before@, after@, earlier, *partners, before_gap, after_gap);
        lemma_gap_keeps_sides(
            stable@,
            start,
            earlier,
            *partners,
            before_gap,
            after_gap,
            before@.len() as int,
            after@.len() as int,
        );
        assert(flags_longest(stable@, start.before@, undecorated(before@)));
    }
}

/// Free decorations of one owner.
fn decorations_of(
    units: &Vec<UnitRecord>,
    partner: &Vec<Option<usize>>,
    owner: NodeId,
) -> (indices: Vec<usize>)
    requires
        partner@.len() == units@.len(),
    ensures
        indices_below(indices@, units@.len() as int),
        forall|k: int|
            0 <= k < indices@.len() ==> units@[(#[trigger] indices@[k]) as int].decoration_owner
                == Some(owner),
        spread(indices@),
        free_at(partner@, indices@),
        forall|i: int|
            0 <= i < units@.len() && (#[trigger] partner@[i]) is None && units@[i].decoration_owner
                == Some(owner) ==> indices@.contains(i as usize),
{
    let mut indices: Vec<usize> = Vec::new();
    let mut index: usize = 0;
    while index < units.len()
        invariant
            index <= units@.len(),
            partner@.len() == units@.len(),
            indices_below(indices@, index as int),
            spread(indices@),
            free_at(partner@, indices@),
            forall|i: int|
                0 <= i < index && (#[trigger] partner@[i]) is None && units@[i].decoration_owner
                    == Some(owner) ==> indices@.contains(i as usize),
            forall|k: int|
                0 <= k < indices@.len() ==> units@[(
                #[trigger] indices@[k]) as int].decoration_owner == Some(owner),
        decreases units@.len() - index,
    {
        let ghost earlier = indices@;
        if partner[index].is_none() {
            if let Some(found) = units[index].decoration_owner {
                if found == owner {
                    indices.push(index);
                }
            }
        }
        proof {
            lemma_kept_listed(earlier, indices@);
            if indices@.len() > earlier.len() {
                assert(indices@[indices@.len() - 1] == index);
            }
        }
        index += 1;
    }
    indices
}

/// How closely two decorations are compared.
#[derive(Clone, Copy, PartialEq, Eq, Structural)]
pub enum DecorationKey {
    Content,
    Shape,
    Kind,
}

/// What a comparison of decorations reads.
pub open spec fn decoration_key(unit: UnitRecord, by: DecorationKey) -> Seq<usize> {
    match by {
        DecorationKey::Content => seq![unit.prints.full, 0],
        DecorationKey::Shape => seq![unit.kind, unit.prints.shape],
        DecorationKey::Kind => seq![unit.kind, 0],
    }
}

/// Two decorations of the owners that a comparison finds equal.
pub open spec fn are_alike(
    before: UnitRecord,
    after: UnitRecord,
    before_owner: NodeId,
    after_owner: NodeId,
    by: DecorationKey,
) -> bool {
    &&& before.decoration_owner == Some(before_owner)
    &&& after.decoration_owner == Some(after_owner)
    &&& decoration_key(before, by) == decoration_key(after, by)
}

/// One comparison pairs free decorations of the owners that it finds equal, and leaves two such
/// over only where a pair crosses them.
pub open spec fn is_decoration_pass(
    before: Seq<UnitRecord>,
    after: Seq<UnitRecord>,
    before_owner: NodeId,
    after_owner: NodeId,
    by: DecorationKey,
    earlier: Partners,
    later: Partners,
) -> bool {
    &&& later.wf(before.len() as int, after.len() as int)
    &&& later.grows(earlier)
    &&& forall|i: int|
        0 <= i < later.before@.len() && (#[trigger] later.before@[i]) is Some
            && earlier.before@[i] is None ==> are_alike(
            before[i],
            after[later.before@[i]->0 as int],
            before_owner,
            after_owner,
            by,
        )
    &&& forall|i: int, j: int|
        0 <= i < before.len() && 0 <= j < after.len() && are_alike(
            #[trigger] before[i],
            #[trigger] after[j],
            before_owner,
            after_owner,
            by,
        ) ==> is_settled(later, i, j)
}

/// The decorations of two owners are paired by content, then by kind and shape, then by kind.
pub open spec fn is_owner_pass(
    before: Seq<UnitRecord>,
    after: Seq<UnitRecord>,
    before_owner: NodeId,
    after_owner: NodeId,
    earlier: Partners,
    later: Partners,
) -> bool {
    exists|second: Partners, third: Partners|
        #[trigger] is_decoration_pass(
            before,
            after,
            before_owner,
            after_owner,
            DecorationKey::Content,
            earlier,
            second,
        ) && #[trigger] is_decoration_pass(
            before,
            after,
            before_owner,
            after_owner,
            DecorationKey::Shape,
            second,
            third,
        ) && is_decoration_pass(
            before,
            after,
            before_owner,
            after_owner,
            DecorationKey::Kind,
            third,
            later,
        )
}

/// Some pair of partners is the pair of roots.
pub open spec fn has_root_pair(
    before: Seq<UnitRecord>,
    after: Seq<UnitRecord>,
    before_root: NodeId,
    after_root: NodeId,
    owners: Seq<Option<usize>>,
) -> bool {
    exists|i: int|
        0 <= i < before.len() && (#[trigger] owners[i]) is Some && both_roots(
            before[i],
            after[owners[i]->0 as int],
            before_root,
            after_root,
        )
}

/// Step by step the decorations of the roots, where these are no partners themselves, and of the
/// first partners are paired.
pub open spec fn are_owner_steps(
    before: Seq<UnitRecord>,
    after: Seq<UnitRecord>,
    before_root: NodeId,
    after_root: NodeId,
    earlier: Partners,
    steps: Seq<Partners>,
) -> bool {
    &&& steps.len() > 0
    &&& if has_root_pair(before, after, before_root, after_root, earlier.before@) {
        steps[0] == earlier
    } else {
        is_owner_pass(before, after, before_root, after_root, earlier, steps[0])
    }
    &&& forall|k: int|
        1 <= k < steps.len() ==> match earlier.before@[k - 1] {
            Some(j) => is_owner_pass(
                before,
                after,
                before[k - 1].id,
                after[j as int].id,
                steps[k - 1],
                #[trigger] steps[k],
            ),
            None => steps[k] == steps[k - 1],
        }
}

/// The decorations of all partners are paired, those of the roots first, then in order.
pub open spec fn owners_passed(
    before: Seq<UnitRecord>,
    after: Seq<UnitRecord>,
    before_root: NodeId,
    after_root: NodeId,
    earlier: Partners,
    later: Partners,
) -> bool {
    exists|steps: Seq<Partners>| #[trigger]
        are_owner_steps(before, after, before_root, after_root, earlier, steps) && steps.len()
            == before.len() + 1 && steps.last() == later
}

fn decoration_keys(units: &Vec<UnitRecord>, indices: &Vec<usize>, by: DecorationKey) -> (keys: Vec<
    Vec<usize>,
>)
    requires
        indices_below(indices@, units@.len() as int),
    ensures
        keys@.len() == indices@.len(),
        forall|k: int|
            0 <= k < keys@.len() ==> (#[trigger] keys@[k])@ == decoration_key(
                units@[indices@[k] as int],
                by,
            ),
{
    let mut keys: Vec<Vec<usize>> = Vec::new();
    let mut index: usize = 0;
    while index < indices.len()
        invariant
            indices_below(indices@, units@.len() as int),
            index <= indices@.len(),
            keys@.len() == index,
            forall|k: int|
                0 <= k < keys@.len() ==> (#[trigger] keys@[k])@ == decoration_key(
                    units@[indices@[k] as int],
                    by,
                ),
        decreases indices@.len() - index,
    {
        let unit = units[indices[index]];
        let key = match by {
            DecorationKey::Content => vec![unit.prints.full, 0],
            DecorationKey::Shape => vec![unit.kind, unit.prints.shape],
            DecorationKey::Kind => vec![unit.kind, 0],
        };
        assert(key@ =~= decoration_key(unit, by));
        keys.push(key);
        index += 1;
    }
    keys
}

/// Match the free decorations of two partners by one comparison.
fn match_decorations(
    before: &Vec<UnitRecord>,
    after: &Vec<UnitRecord>,
    before_owner: NodeId,
    after_owner: NodeId,
    by: DecorationKey,
    partners: &mut Partners,
)
    requires
        old(partners).wf(before@.len() as int, after@.len() as int),
    ensures
        final(partners).wf(before@.len() as int, after@.len() as int),
        final(partners).grows(*old(partners)),
        pairs_since(
            *final(partners),
            *old(partners),
            before@,
            after@,
            |b: UnitRecord, a: UnitRecord|
                same_decoration(b, a) && b.decoration_owner == Some(before_owner)
                    && a.decoration_owner == Some(after_owner),
        ),
        by == DecorationKey::Kind ==> owner_decorations_paired(
            before@,
            after@,
            before_owner,
            after_owner,
            *final(partners),
        ),
        is_decoration_pass(
            before@,
            after@,
            before_owner,
            after_owner,
            by,
            *old(partners),
            *final(partners),
        ),
{
    let ghost start = *partners;
    let before_indices = decorations_of(before, &partners.before, before_owner);
    let after_indices = decorations_of(after, &partners.after, after_owner);
    if before_indices.len() == 0 || after_indices.len() == 0 {
        proof {
            assert(before.len() <= usize::MAX && after.len() <= usize::MAX);
            assert forall|i: int, j: int|
                0 <= i < before@.len() && 0 <= j < after@.len() && (
                #[trigger] before@[i]).decoration_owner == Some(before_owner) && (
                #[trigger] after@[j]).decoration_owner == Some(
                    after_owner,
                ) implies is_taken(*partners, i, j) by {
                if partners.before@[i] is None && partners.after@[j] is None {
                    assert(before_indices@.contains(i as usize));
                    assert(after_indices@.contains(j as usize));
                }
            }
        }
        return;
    }
    let before_keys = decoration_keys(before, &before_indices, by);
    let after_keys = decoration_keys(after, &after_indices, by);
    let ghost left = key_views(before_keys@);
    let ghost right = key_views(after_keys@);
    let ghost left_keys = before_keys@;
    let ghost right_keys = after_keys@;
    let matches = ordered_key_matches(before_keys, after_keys);
    proof {
        lemma_monotone_one_to_one(matches@);
    }
    partners.claim_all(&before_indices, &after_indices, &matches);
    proof {
        assert(before.len() <= usize::MAX && after.len() <= usize::MAX);
        {
            assert forall|i: int, j: int|
                0 <= i < before@.len() && 0 <= j < after@.len() && are_alike(
                    #[trigger] before@[i],
                    #[trigger] after@[j],
                    before_owner,
                    after_owner,
                    by,
                ) implies is_settled(*partners, i, j) by {
                if start.before@[i] is None && start.after@[j] is None {
                    assert(before_indices@.contains(i as usize));
                    assert(after_indices@.contains(j as usize));
                    let x = choose|x: int|
                        0 <= x < before_indices@.len() && before_indices@[x] == i as usize;
                    let y = choose|y: int|
                        0 <= y < after_indices@.len() && after_indices@[y] == j as usize;
                    assert(left[x] == left_keys[x]@ && right[y] == right_keys[y]@);
                    assert(left[x] =~= right[y]);
                    assert(is_blocked(matches@, x, y));
                    lemma_blocked_is_crossed(
                        *partners,
                        before_indices@,
                        after_indices@,
                        matches@,
                        x,
                        y,
                    );
                }
            }
        }
        if by == DecorationKey::Kind {
            assert forall|i: int, j: int|
                0 <= i < before@.len() && 0 <= j < after@.len() && (
                #[trigger] before@[i]).decoration_owner == Some(before_owner) && (
                #[trigger] after@[j]).decoration_owner == Some(after_owner) && before@[i].kind
                    == after@[j].kind implies is_settled(*partners, i, j) by {
                assert(are_alike(before@[i], after@[j], before_owner, after_owner, by));
            }
        }
        assert forall|i: int|
            0 <= i < partners.before@.len() && (#[trigger] partners.before@[i]) is Some
                && start.before@[i] is None implies same_decoration(
            before@[i],
            after@[partners.before@[i]->0 as int],
        ) && are_alike(
            before@[i],
            after@[partners.before@[i]->0 as int],
            before_owner,
            after_owner,
            by,
        ) by {
            let k = choose|k: int|
                0 <= k < matches@.len() && before_indices@[(
                #[trigger] matches@[k]).before as int] == i
                    && after_indices@[matches@[k].after as int] == partners.before@[i]->0;
            let edge = matches@[k];
            assert(left[edge.before as int] == right[edge.after as int]);
            assert(before_indices@[edge.before as int] == i);
            assert(left[edge.before as int] == left_keys[edge.before as int]@);
            assert(right[edge.after as int] == right_keys[edge.after as int]@);
            let a = after_indices@[edge.after as int] as int;
            assert(a == partners.before@[i]->0);
            assert(decoration_key(before@[i], by)[0] == decoration_key(after@[a], by)[0]);
        }
    }
}

/// Pair decorations only within owners that have already matched.
pub fn pair_decorated_units(
    before: &Vec<UnitRecord>,
    after: &Vec<UnitRecord>,
    before_root: NodeId,
    after_root: NodeId,
    partners: &mut Partners,
)
    requires
        old(partners).wf(before@.len() as int, after@.len() as int),
    ensures
        final(partners).wf(before@.len() as int, after@.len() as int),
        final(partners).grows(*old(partners)),
        pairs_since(
            *final(partners),
            *old(partners),
            before@,
            after@,
            |b: UnitRecord, a: UnitRecord| same_decoration(b, a),
        ),
        decorations_paired(
            before@,
            after@,
            *old(partners),
            *final(partners),
            before@.len() as int,
        ),
        owner_decorations_paired(before@, after@, before_root, after_root, *final(partners)),
        owners_passed(before@, after@, before_root, after_root, *old(partners), *final(partners)),
{
    let ghost start = *partners;
    let owners = snapshot(&partners.before);
    let roots_are_partners = root_is_paired(before, after, before_root, after_root, &owners);
    let mut index: usize = 0;
    // The file roots come first in owner order; units follow in preorder.
    if !roots_are_partners {
        match_owner(before, after, before_root, after_root, partners);
    }
    let ghost rooted = *partners;
    let ghost mut steps: Seq<Partners> = seq![*partners];
    while index < before.len()
        invariant
            partners.wf(before@.len() as int, after@.len() as int),
            partners.grows(start),
            partners.grows(rooted),
            are_owner_steps(before@, after@, before_root, after_root, start, steps),
            index <= before@.len(),
            steps.len() == index + 1,
            steps.last() == *partners,
            rooted.wf(before@.len() as int, after@.len() as int),
            owners@ == start.before@,
            decorations_paired(before@, after@, start, *partners, index as int),
            owners@.len() == before@.len(),
            forall|i: int|
                0 <= i < owners@.len() ==> ((#[trigger] owners@[i]) matches Some(j) ==> j
                    < after@.len()),
            pairs_since(
                *partners,
                start,
                before@,
                after@,
                |b: UnitRecord, a: UnitRecord| same_decoration(b, a),
            ),
        decreases before@.len() - index,
    {
        let ghost earlier = *partners;
        if let Some(partner) = owners[index] {
            match_owner(before, after, before[index].id, after[partner].id, partners);
            proof {
                lemma_pairs_chain(*partners, earlier, start, before@, after@);
                lemma_grows_chain(*partners, earlier, rooted);
            }
        }
        proof {
            let more = steps.push(*partners);
            assert forall|k: int| 1 <= k < more.len() implies match start.before@[k - 1] {
                Some(j) => is_owner_pass(
                    before@,
                    after@,
                    before@[k - 1].id,
                    after@[j as int].id,
                    more[k - 1],
                    #[trigger] more[k],
                ),
                None => more[k] == more[k - 1],
            } by {
                assert(more[k - 1] == steps[k - 1]);
                if k < steps.len() {
                    assert(more[k] == steps[k]);
                }
            }
            steps = more;
            assert forall|k: int|
                0 <= k < index + 1 && (
                #[trigger] start.before@[k]) is Some implies owner_decorations_paired(
                before@,
                after@,
                before@[k].id,
                after@[start.before@[k]->0 as int].id,
                *partners,
            ) by {
                if k < index {
                    lemma_owner_decorations_grow(
                        before@,
                        after@,
                        before@[k].id,
                        after@[start.before@[k]->0 as int].id,
                        *partners,
                        earlier,
                    );
                }
            }
        }
        index += 1;
    }
    proof {
        assert(are_owner_steps(before@, after@, before_root, after_root, start, steps));
        assert(steps.len() == before@.len() + 1 && steps.last() == *partners);
        if roots_are_partners {
            let i = choose|i: int|
                0 <= i < before@.len() && (#[trigger] owners@[i]) is Some && both_roots(
                    before@[i],
                    after@[owners@[i]->0 as int],
                    before_root,
                    after_root,
                );
            assert(start.before@[i] is Some);
        } else {
            lemma_owner_decorations_grow(
                before@,
                after@,
                before_root,
                after_root,
                *partners,
                rooted,
            );
        }
    }
}

proof fn lemma_pairs_chain(
    later: Partners,
    middle: Partners,
    earlier: Partners,
    before: Seq<UnitRecord>,
    after: Seq<UnitRecord>,
)
    requires
        later.grows(middle),
        middle.grows(earlier),
        later.before@.len() == before.len(),
        pairs_since(
            later,
            middle,
            before,
            after,
            |b: UnitRecord, a: UnitRecord| same_decoration(b, a),
        ),
        pairs_since(
            middle,
            earlier,
            before,
            after,
            |b: UnitRecord, a: UnitRecord| same_decoration(b, a),
        ),
    ensures
        later.grows(earlier),
        pairs_since(
            later,
            earlier,
            before,
            after,
            |b: UnitRecord, a: UnitRecord| same_decoration(b, a),
        ),
{
    assert forall|i: int|
        0 <= i < later.before@.len() && (#[trigger] later.before@[i]) is Some
            && earlier.before@[i] is None implies same_decoration(
        before[i],
        after[later.before@[i]->0 as int],
    ) by {
        if middle.before@[i] is Some {
            assert(later.before@[i] == middle.before@[i]);
        }
    }
    assert forall|i: int|
        0 <= i < earlier.before@.len() && (#[trigger] earlier.before@[i]) is Some implies later.before@[i]
        == earlier.before@[i] by {
        assert(middle.before@[i] is Some);
    }
    assert forall|i: int|
        0 <= i < earlier.after@.len() && (#[trigger] earlier.after@[i]) is Some implies later.after@[i]
        == earlier.after@[i] by {
        assert(middle.after@[i] is Some);
    }
}

fn snapshot(partner: &Vec<Option<usize>>) -> (copy: Vec<Option<usize>>)
    ensures
        copy@ == partner@,
{
    let mut copy: Vec<Option<usize>> = Vec::new();
    let mut index: usize = 0;
    while index < partner.len()
        invariant
            index <= partner@.len(),
            copy@ == partner@.take(index as int),
        decreases partner@.len() - index,
    {
        copy.push(partner[index]);
        index += 1;
    }
    assert(partner@.take(partner@.len() as int) =~= partner@);
    copy
}

fn root_is_paired(
    before: &Vec<UnitRecord>,
    after: &Vec<UnitRecord>,
    before_root: NodeId,
    after_root: NodeId,
    owners: &Vec<Option<usize>>,
) -> (paired: bool)
    requires
        owners@.len() == before@.len(),
        forall|i: int|
            0 <= i < owners@.len() ==> ((#[trigger] owners@[i]) matches Some(j) ==> j
                < after@.len()),
    ensures
        paired == has_root_pair(before@, after@, before_root, after_root, owners@),
{
    let mut index: usize = 0;
    while index < before.len()
        invariant
            index <= before@.len(),
            owners@.len() == before@.len(),
            forall|i: int|
                0 <= i < owners@.len() ==> ((#[trigger] owners@[i]) matches Some(j) ==> j
                    < after@.len()),
            forall|i: int|
                0 <= i < index && (#[trigger] owners@[i]) is Some ==> !both_roots(
                    before@[i],
                    after@[owners@[i]->0 as int],
                    before_root,
                    after_root,
                ),
        decreases before@.len() - index,
    {
        if let Some(partner) = owners[index] {
            if before[index].id == before_root && after[partner].id == after_root {
                assert(owners@[index as int] is Some);
                return true;
            }
        }
        index += 1;
    }
    false
}

/// Match the decorations of two partners by content, then shape, then kind.
fn match_owner(
    before: &Vec<UnitRecord>,
    after: &Vec<UnitRecord>,
    before_owner: NodeId,
    after_owner: NodeId,
    partners: &mut Partners,
)
    requires
        old(partners).wf(before@.len() as int, after@.len() as int),
    ensures
        final(partners).wf(before@.len() as int, after@.len() as int),
        final(partners).grows(*old(partners)),
        pairs_since(
            *final(partners),
            *old(partners),
            before@,
            after@,
            |b: UnitRecord, a: UnitRecord| same_decoration(b, a),
        ),
        owner_decorations_paired(before@, after@, before_owner, after_owner, *final(partners)),
        is_owner_pass(
            before@,
            after@,
            before_owner,
            after_owner,
            *old(partners),
            *final(partners),
        ),
{
    let ghost start = *partners;
    match_decorations(before, after, before_owner, after_owner, DecorationKey::Content, partners);
    let ghost second = *partners;
    match_decorations(before, after, before_owner, after_owner, DecorationKey::Shape, partners);
    let ghost third = *partners;
    match_decorations(before, after, before_owner, after_owner, DecorationKey::Kind, partners);
    proof {
        lemma_pairs_chain(third, second, start, before@, after@);
        lemma_pairs_chain(*partners, third, start, before@, after@);
    }
}

/// The unit is the first with the id.
pub open spec fn is_first_with(units: Seq<UnitRecord>, i: int, id: NodeId) -> bool {
    0 <= i < units.len() && units[i].id == id && forall|k: int|
        0 <= k < i ==> (#[trigger] units[k]).id != id
}

/// The roots of the two files are partners.
pub open spec fn roots_paired(
    before: Seq<UnitRecord>,
    after: Seq<UnitRecord>,
    before_root: NodeId,
    after_root: NodeId,
    partners: Partners,
) -> bool {
    forall|i: int, j: int| #[trigger]
        is_first_with(before, i, before_root) && #[trigger] is_first_with(after, j, after_root)
            ==> partners.before@[i] == Some(j as usize)
}

/// The roots are paired where both are units, and nothing else.
pub open spec fn only_roots_paired(
    before: Seq<UnitRecord>,
    after: Seq<UnitRecord>,
    before_root: NodeId,
    after_root: NodeId,
    partners: Partners,
) -> bool {
    &&& partners.wf(before.len() as int, after.len() as int)
    &&& roots_paired(before, after, before_root, after_root, partners)
    &&& forall|i: int|
        0 <= i < before.len() ==> ((#[trigger] partners.before@[i]) matches Some(j)
            ==> is_first_with(before, i, before_root) && is_first_with(
            after,
            j as int,
            after_root,
        ))
}

/// The order in which units are paired: the roots; undecorated units of one kind and name by
/// their occurrence; nameless leaf units by content; compatible units in place; and decorations of
/// partners.
pub open spec fn is_unit_pairing(
    before: Seq<UnitRecord>,
    after: Seq<UnitRecord>,
    before_root: NodeId,
    after_root: NodeId,
    rooted: Partners,
    named: Partners,
    atomic: Partners,
    placed: Partners,
    partners: Partners,
) -> bool {
    &&& only_roots_paired(before, after, before_root, after_root, rooted)
    &&& is_keyed_pass(
        named,
        rooted,
        name_key(before, rooted.before@),
        name_key(after, rooted.after@),
    )
    &&& atomic.grows(named)
    &&& pairs_since(
        atomic,
        named,
        before,
        after,
        |b: UnitRecord, a: UnitRecord| same_atom(b, a),
    )
    &&& atoms_paired(before, after, atomic)
    &&& is_atomic_pass(before, after, named, atomic)
    &&& placed.grows(atomic)
    &&& pairs_since(
        placed,
        atomic,
        before,
        after,
        |b: UnitRecord, a: UnitRecord| compatible(b, a),
    )
    &&& compatibles_paired(before, after, placed)
    &&& fills_gaps(before, atomic, placed)
    &&& owners_passed(before, after, before_root, after_root, placed, partners)
}

/// Units are paired step by step.
pub open spec fn steps_pair_units(
    before: Seq<UnitRecord>,
    after: Seq<UnitRecord>,
    before_root: NodeId,
    after_root: NodeId,
    partners: Partners,
) -> bool {
    exists|rooted: Partners, named: Partners, atomic: Partners, placed: Partners| #[trigger]
        is_unit_pairing(
            before,
            after,
            before_root,
            after_root,
            rooted,
            named,
            atomic,
            placed,
            partners,
        )
}

/// A decoration is paired with a decoration, and an undecorated unit with an undecorated one; the
/// roots may be an exception.
pub open spec fn decorated_alike(
    before: Seq<UnitRecord>,
    after: Seq<UnitRecord>,
    before_root: NodeId,
    after_root: NodeId,
    partners: Partners,
) -> bool {
    forall|i: int|
        0 <= i < before.len() ==> ((#[trigger] partners.before@[i]) matches Some(j) ==> both_roots(
            before[i],
            after[j as int],
            before_root,
            after_root,
        ) || (before[i].decoration_owner is Some) == (after[j as int].decoration_owner is Some))
}

/// Units are paired for a cause, and no cause leaves two units that share it unpaired.
pub open spec fn units_paired(
    before: Seq<UnitRecord>,
    after: Seq<UnitRecord>,
    before_root: NodeId,
    after_root: NodeId,
    partners: Partners,
) -> bool {
    &&& partners.wf(before.len() as int, after.len() as int)
    &&& forall|i: int|
        0 <= i < before.len() ==> ((#[trigger] partners.before@[i]) matches Some(j)
            ==> paired_for_cause(before[i], after[j as int], before_root, after_root))
    &&& roots_paired(before, after, before_root, after_root, partners)
    &&& names_paired(before, after, partners)
    &&& atoms_paired(before, after, partners)
    &&& compatibles_paired(before, after, partners)
    &&& owner_decorations_paired(before, after, before_root, after_root, partners)
    &&& steps_pair_units(before, after, before_root, after_root, partners)
    &&& decorated_alike(before, after, before_root, after_root, partners)
}

/// Pair the review units of two revisions.
pub fn pair_units(
    before: &Vec<UnitRecord>,
    after: &Vec<UnitRecord>,
    before_root: NodeId,
    after_root: NodeId,
) -> (partners: Partners)
    ensures
        units_paired(before@, after@, before_root, after_root, partners),
{
    let mut partners = Partners::new(before.len(), after.len());
    let ghost blank = partners;
    let before_position = position_of(before, before_root);
    let after_position = position_of(after, after_root);
    if let (Some(left), Some(right)) = (before_position, after_position) {
        let claimed = partners.claim(left, right);
    }
    let ghost rooted = partners;
    pair_keyed_units(before, after, &mut partners);
    let ghost keyed = partners;
    pair_atomic_units(before, after, &mut partners);
    let ghost atomic = partners;
    pair_compatible_units(before, after, &mut partners);
    let ghost placed = partners;
    pair_decorated_units(before, after, before_root, after_root, &mut partners);
    proof {
        assert forall|i: int, j: int| #[trigger]
            is_first_with(before@, i, before_root) && #[trigger] is_first_with(
                after@,
                j,
                after_root,
            ) implies partners.before@[i] == Some(j as usize) by {
            assert(before@[i].id == before_root && after@[j].id == after_root);
            let left = before_position->0 as int;
            let right = after_position->0 as int;
            assert(left == i) by {
                if left < i {
                    assert(before@[left].id != before_root);
                }
                if i < left {
                    assert(before@[i].id != before_root);
                }
            }
            assert(right == j) by {
                if right < j {
                    assert(after@[right].id != after_root);
                }
                if j < right {
                    assert(after@[j].id != after_root);
                }
            }
            assert(rooted.before@[i] == Some(j as usize));
            assert(keyed.before@[i] == rooted.before@[i]);
            assert(atomic.before@[i] == keyed.before@[i]);
            assert(placed.before@[i] == atomic.before@[i]);
        }
        assert(only_roots_paired(before@, after@, before_root, after_root, rooted)) by {
            assert forall|i: int, j: int| #[trigger]
                is_first_with(before@, i, before_root) && #[trigger] is_first_with(
                    after@,
                    j,
                    after_root,
                ) implies rooted.before@[i] == Some(j as usize) by {
                assert(before@[i].id == before_root && after@[j].id == after_root);
                let left = before_position->0 as int;
                let right = after_position->0 as int;
                if left < i {
                    assert(before@[left].id != before_root);
                }
                if i < left {
                    assert(before@[i].id != before_root);
                }
                if right < j {
                    assert(after@[right].id != after_root);
                }
                if j < right {
                    assert(after@[j].id != after_root);
                }
            }
        }
        assert(is_unit_pairing(
            before@,
            after@,
            before_root,
            after_root,
            rooted,
            keyed,
            atomic,
            placed,
            partners,
        ));
        lemma_units_settled_grow(before@, after@, atomic, keyed);
        lemma_units_settled_grow(before@, after@, placed, atomic);
        lemma_units_settled_grow(before@, after@, partners, placed);
        assert forall|i: int| 0 <= i < before@.len() implies ((
        #[trigger] partners.before@[i]) matches Some(j) ==> paired_for_cause(
            before@[i],
            after@[j as int],
            before_root,
            after_root,
        )) by {
            if partners.before@[i] is Some {
                if placed.before@[i] is None {
                    assert(same_decoration(before@[i], after@[partners.before@[i]->0 as int]));
                } else if atomic.before@[i] is None {
                    assert(placed.before@[i] is Some);
                    assert(compatible(before@[i], after@[partners.before@[i]->0 as int]));
                } else if keyed.before@[i] is None {
                    assert(atomic.before@[i] is Some);
                    assert(placed.before@[i] == atomic.before@[i]);
                    assert(same_atom(before@[i], after@[partners.before@[i]->0 as int]));
                } else if rooted.before@[i] is None {
                    assert(keyed.before@[i] is Some);
                    assert(atomic.before@[i] == keyed.before@[i]);
                    assert(placed.before@[i] == keyed.before@[i]);
                    assert(same_name(before@[i], after@[partners.before@[i]->0 as int]));
                } else {
                    assert(rooted.before@[i] is Some);
                    assert(keyed.before@[i] == rooted.before@[i]);
                    assert(atomic.before@[i] == rooted.before@[i]);
                    assert(placed.before@[i] == rooted.before@[i]);
                    assert(blank.before@[i] is None);
                }
            }
        }
    }
    partners
}

fn position_of(units: &Vec<UnitRecord>, id: NodeId) -> (position: Option<usize>)
    ensures
        match position {
            Some(found) => is_first_with(units@, found as int, id),
            None => forall|i: int| 0 <= i < units@.len() ==> (#[trigger] units@[i]).id != id,
        },
{
    let mut index: usize = 0;
    while index < units.len()
        invariant
            index <= units@.len(),
            forall|i: int| 0 <= i < index ==> (#[trigger] units@[i]).id != id,
        decreases units@.len() - index,
    {
        if units[index].id == id {
            return Some(index);
        }
        index += 1;
    }
    None
}

/// Whether the partner of a unit may be reported as moved.
pub open spec fn tracks(before: UnitRecord, after: UnitRecord) -> bool {
    ReviewMode::reconciled(before.mode, after.mode) == ReviewMode::StructureAware
}

/// Matched units whose movement counts: they decorate nothing and both revisions track them.
pub open spec fn movable(
    partner: Seq<Option<usize>>,
    before: Seq<UnitRecord>,
    after: Seq<UnitRecord>,
) -> Seq<bool> {
    Seq::new(
        before.len(),
        |i: int|
            before[i].decoration_owner is None && partner[i] is Some && tracks(
                before[i],
                after[partner[i]->0 as int],
            ),
    )
}

/// The unit and its partner are the roots.
pub open spec fn pairs_roots(
    partner: Seq<Option<usize>>,
    before: Seq<UnitRecord>,
    after: Seq<UnitRecord>,
    i: int,
) -> bool {
    before[i].id == 0 && partner[i] is Some && after[partner[i]->0 as int].id == 0
}

/// Each flag of a unit that decorates nothing: the longest selection decides for units whose
/// movement counts; paired roots and all other matched units keep their place.
pub open spec fn owners_flagged(
    stable: Seq<bool>,
    longest: Seq<bool>,
    partner: Seq<Option<usize>>,
    before: Seq<UnitRecord>,
    after: Seq<UnitRecord>,
) -> bool {
    forall|i: int|
        0 <= i < before.len() && before[i].decoration_owner is None ==> #[trigger] stable[i] == (
        partner[i] is Some && (if movable(partner, before, after)[i] {
            longest[i] || pairs_roots(partner, before, after, i)
        } else {
            true
        }))
}

/// A matched decoration keeps its place with its owner; the file root always does.
pub open spec fn decorations_flagged(
    stable: Seq<bool>,
    partner: Seq<Option<usize>>,
    before: Seq<UnitRecord>,
) -> bool {
    forall|i: int, owner: int|
        0 <= i < before.len() && 0 <= owner < before.len() && partner[i] is Some
            && before[i].decoration_owner == Some((#[trigger] before[owner]).id)
            && before[owner].decoration_owner is None ==> #[trigger] stable[i] == stable[owner]
}

/// Which matches keep their order.
pub open spec fn is_stable_choice(
    stable: Seq<bool>,
    partner: Seq<Option<usize>>,
    before: Seq<UnitRecord>,
    after: Seq<UnitRecord>,
) -> bool {
    &&& stable.len() == before.len()
    &&& exists|longest: Seq<bool>| #[trigger]
        owners_flagged(stable, longest, partner, before, after) && flags_longest(
            longest,
            partner,
            movable(partner, before, after),
        )
    &&& decorations_flagged(stable, partner, before)
}

/// Matches that keep their order.
///
/// Structural units are stable where they belong to a longest ascending selection; other
/// units, the paired roots, and the decorations of a stable owner are always stable.
pub fn stable_unit_matches(
    partner: &Vec<Option<usize>>,
    before: &Vec<UnitRecord>,
    after: &Vec<UnitRecord>,
) -> (stable: Vec<bool>)
    requires
        partner@.len() == before@.len(),
        forall|i: int|
            0 <= i < partner@.len() ==> ((#[trigger] partner@[i]) matches Some(j) ==> j
                < after@.len()),
        forall|i: int, j: int|
            0 <= i < j < before@.len() ==> (#[trigger] before@[i]).id < (#[trigger] before@[j]).id,
    ensures
        is_stable_choice(stable@, partner@, before@, after@),
{
    let longest = longest_movable(partner, before, after);
    let mut stable = repeated(false, before.len());
    let mut index: usize = 0;
    while index < partner.len()
        invariant
            index <= partner@.len(),
            partner@.len() == before@.len(),
            longest@.len() == before@.len(),
            stable@.len() == before@.len(),
            forall|i: int|
                0 <= i < partner@.len() ==> ((#[trigger] partner@[i]) matches Some(j) ==> j
                    < after@.len()),
            forall|i: int| index <= i < before@.len() ==> !(#[trigger] stable@[i]),
            forall|i: int|
                0 <= i < index && before@[i].decoration_owner is None ==> #[trigger] stable@[i] == (
                partner@[i] is Some && (if movable(partner@, before@, after@)[i] {
                    longest@[i] || pairs_roots(partner@, before@, after@, i)
                } else {
                    true
                })),
        decreases partner@.len() - index,
    {
        if let Some(found) = partner[index] {
            // Non-structural units stay out of the order comparison so they cannot imply moves,
            // and the paired file root is fixed: it is the frame for the movement of its children.
            let fixed = !ReviewMode::reconcile(
                before[index].mode,
                after[found].mode,
            ).tracks_movement() || (before[index].id == 0 && after[found].id == 0);
            stable.set(index, fixed || longest[index]);
        }
        index += 1;
    }
    let ghost owners = stable@;
    let mut index: usize = 0;
    while index < before.len()
        invariant
            index <= before@.len(),
            partner@.len() == before@.len(),
            stable@.len() == before@.len(),
            owners.len() == before@.len(),
            forall|i: int, j: int|
                0 <= i < j < before@.len() ==> (#[trigger] before@[i]).id < (
                #[trigger] before@[j]).id,
            forall|i: int|
                0 <= i < before@.len() && before@[i].decoration_owner is None
                    ==> #[trigger] stable@[i] == owners[i],
            forall|i: int, owner: int|
                0 <= i < index && 0 <= owner < before@.len() && partner@[i] is Some
                    && before@[i].decoration_owner == Some((#[trigger] before@[owner]).id)
                    && before@[owner].decoration_owner is None ==> #[trigger] stable@[i]
                    == stable@[owner],
        decreases before@.len() - index,
    {
        if let Some(owner) = before[index].decoration_owner {
            if partner[index].is_some() {
                match position_of(before, owner) {
                    Some(found) => {
                        let inherited = stable[found];
                        stable.set(index, inherited);
                        proof {
                            assert forall|other: int|
                                0 <= other < before@.len() && (#[trigger] before@[other]).id
                                    == owner implies other == found by {
                                if other < found {
                                    assert(before@[other].id < before@[found as int].id);
                                } else if other > found {
                                    assert(before@[found as int].id < before@[other].id);
                                }
                            }
                        }
                    },
                    None => {
                        // Root-owned documentation shares the fixed file frame even without a
                        // review unit for the root.
                        if owner == 0 {
                            stable.set(index, true);
                        }
                    },
                }
            }
        }
        index += 1;
    }
    proof {
        assert(owners_flagged(stable@, longest@, partner@, before@, after@));
    }
    stable
}

/// A longest noncrossing selection of the units whose movement counts.
fn longest_movable(
    partner: &Vec<Option<usize>>,
    before: &Vec<UnitRecord>,
    after: &Vec<UnitRecord>,
) -> (longest: Vec<bool>)
    requires
        partner@.len() == before@.len(),
        forall|i: int|
            0 <= i < partner@.len() ==> ((#[trigger] partner@[i]) matches Some(j) ==> j
                < after@.len()),
    ensures
        longest@.len() == before@.len(),
        flags_longest(longest@, partner@, movable(partner@, before@, after@)),
{
    let ghost chosen = movable(partner@, before@, after@);
    let mut indices: Vec<usize> = Vec::new();
    let mut order: Vec<usize> = Vec::new();
    let mut index: usize = 0;
    while index < partner.len()
        invariant
            index <= partner@.len(),
            partner@.len() == before@.len(),
            chosen == movable(partner@, before@, after@),
            forall|i: int|
                0 <= i < partner@.len() ==> ((#[trigger] partner@[i]) matches Some(j) ==> j
                    < after@.len()),
            order@.len() == indices@.len(),
            indices@ == matched_indices(partner@, chosen, index as int),
            forall|k: int|
                0 <= k < indices@.len() ==> (#[trigger] indices@[k]) < index
                    && partner@[indices@[k] as int] == Some(order@[k]),
            forall|k: int, l: int|
                0 <= k < l < indices@.len() ==> (#[trigger] indices@[k]) < (
                #[trigger] indices@[l]),
        decreases partner@.len() - index,
    {
        if let Some(found) = partner[index] {
            if before[index].decoration_owner.is_none() && ReviewMode::reconcile(
                before[index].mode,
                after[found].mode,
            ).tracks_movement() {
                indices.push(index);
                order.push(found);
            }
        }
        index += 1;
    }
    let members = increasing_subsequence_members(&order);
    let mut longest = repeated(false, before.len());
    let mut position: usize = 0;
    while position < indices.len()
        invariant
            position <= indices@.len(),
            order@.len() == indices@.len(),
            members@.len() == order@.len(),
            longest@.len() == before@.len(),
            forall|k: int| 0 <= k < indices@.len() ==> (#[trigger] indices@[k]) < before@.len(),
            forall|k: int, l: int|
                0 <= k < l < indices@.len() ==> (#[trigger] indices@[k]) < (
                #[trigger] indices@[l]),
            forall|k: int|
                0 <= k < position ==> longest@[(#[trigger] indices@[k]) as int] == members@[k],
        decreases indices@.len() - position,
    {
        longest.set(indices[position], members[position]);
        position += 1;
    }
    proof {
        assert(Seq::new(indices@.len(), |k: int| longest@[indices@[k] as int]) =~= members@);
        assert(Seq::new(indices@.len(), |k: int| partner@[indices@[k] as int]->0) =~= order@);
    }
    longest
}

/// An anchor on one side would cross the unit.
pub open spec fn crosses_anchor(
    anchors: Seq<bool>,
    partner: Seq<Option<usize>>,
    index: int,
) -> bool {
    exists|other: int|
        0 <= other < anchors.len() && #[trigger] anchors[other] && (other < index
            && partner[other]->0 >= partner[index]->0 || other > index && partner[other]->0
            <= partner[index]->0)
}

/// Stable decorations are anchors wherever no other anchor crosses them, and no other
/// decoration is.
pub open spec fn decorations_fit(
    anchors: Seq<bool>,
    partner: Seq<Option<usize>>,
    before: Seq<UnitRecord>,
    stable: Seq<bool>,
) -> bool {
    forall|i: int|
        0 <= i < anchors.len() && before[i].decoration_owner is Some ==> if partner[i] is Some
            && stable[i] {
            #[trigger] anchors[i] || crosses_anchor(anchors, partner, i)
        } else {
            !anchors[i]
        }
}

proof fn lemma_matched_chosen(partner: Seq<Option<usize>>, chosen: Seq<bool>, end: int)
    requires
        0 <= end <= partner.len() <= usize::MAX,
    ensures
        forall|k: int|
            0 <= k < matched_indices(partner, chosen, end).len() ==> (#[trigger] matched_indices(
                partner,
                chosen,
                end,
            )[k]) < end && chosen[matched_indices(partner, chosen, end)[k] as int],
    decreases end,
{
    if end > 0 {
        lemma_matched_chosen(partner, chosen, end - 1);
        let shorter = matched_indices(partner, chosen, end - 1);
        let indices = matched_indices(partner, chosen, end);
        assert forall|k: int| 0 <= k < indices.len() implies (#[trigger] indices[k]) < end
            && chosen[indices[k] as int] by {
            if k < shorter.len() {
                assert(indices[k] == shorter[k]);
            } else {
                assert(indices == shorter.push((end - 1) as usize));
                assert(indices[k] == end - 1);
            }
        }
    }
}

/// Other flags do not matter to the choice among the chosen units.
proof fn lemma_same_flags(
    left: Seq<bool>,
    right: Seq<bool>,
    partner: Seq<Option<usize>>,
    chosen: Seq<bool>,
)
    requires
        flags_longest(left, partner, chosen),
        partner.len() <= usize::MAX,
        forall|i: int| 0 <= i < partner.len() && chosen[i] ==> left[i] == #[trigger] right[i],
    ensures
        flags_longest(right, partner, chosen),
{
    let indices = matched_indices(partner, chosen, partner.len() as int);
    lemma_matched_chosen(partner, chosen, partner.len() as int);
    assert forall|k: int| 0 <= k < indices.len() implies left[indices[k] as int]
        == right[#[trigger] indices[k] as int] by {
        assert(chosen[indices[k] as int]);
    }
    assert(Seq::new(indices.len(), |k: int| left[indices[k] as int]) =~= Seq::new(
        indices.len(),
        |k: int| right[indices[k] as int],
    ));
}

/// Partners that fix the order of the edit script.
///
/// Stable decorations join the anchors where they fit between their neighbours, so they
/// cannot change the order chosen for their owners.
pub fn ordered_script_anchors(
    partner: &Vec<Option<usize>>,
    before: &Vec<UnitRecord>,
    stable: &Vec<bool>,
) -> (anchors: Vec<bool>)
    requires
        partner@.len() == before@.len(),
        stable@.len() == before@.len(),
    ensures
        anchors@.len() == partner@.len(),
        forall|i: int| 0 <= i < anchors@.len() && #[trigger] anchors@[i] ==> partner@[i] is Some,
        anchors_ascend(anchors@, partner@),
        flags_longest(anchors@, partner@, undecorated(before@)),
        decorations_fit(anchors@, partner@, before@, stable@),
{
    let mut anchors = ordered_unit_anchors(partner, before);
    let ghost owners = anchors@;
    let mut index: usize = 0;
    let count = partner.len();
    while index < partner.len()
        invariant
            index <= partner@.len(),
            partner@.len() == before@.len(),
            stable@.len() == before@.len(),
            anchors@.len() == partner@.len(),
            forall|i: int|
                0 <= i < anchors@.len() && #[trigger] anchors@[i] ==> partner@[i] is Some,
            anchors_ascend(anchors@, partner@),
            owners.len() == partner@.len(),
            forall|i: int|
                0 <= i < anchors@.len() && before@[i].decoration_owner is None ==> owners[i]
                    == #[trigger] anchors@[i],
            forall|i: int|
                index <= i < anchors@.len() && before@[i].decoration_owner is Some ==> !(
                #[trigger] anchors@[i]),
            forall|i: int|
                0 <= i < index && before@[i].decoration_owner is Some ==> if partner@[i] is Some
                    && stable@[i] {
                    #[trigger] anchors@[i] || crosses_anchor(anchors@, partner@, i)
                } else {
                    !anchors@[i]
                },
        decreases partner@.len() - index,
    {
        let ghost before_step = anchors@;
        if let Some(after) = partner[index] {
            if before[index].decoration_owner.is_some() && stable[index] {
                let previous = anchor_before(&anchors, partner, index);
                let next = anchor_after(&anchors, partner, index);
                let fits_previous = match previous {
                    Some(previous) => previous < after,
                    None => true,
                };
                let fits_next = match next {
                    Some(next) => after < next,
                    None => true,
                };
                if fits_previous && fits_next {
                    let ghost earlier = anchors@;
                    anchors.set(index, true);
                    proof {
                        assert forall|i: int, j: int|
                            0 <= i < j < anchors@.len() && #[trigger] anchors@[i]
                                && #[trigger] anchors@[j] implies partner@[i] is Some
                            && partner@[j] is Some && partner@[i]->0 < partner@[j]->0 by {
                            if i == index {
                                assert(earlier[j]);
                                assert(next is Some && next->0 <= partner@[j]->0);
                            } else if j == index {
                                assert(earlier[i]);
                                assert(previous is Some && partner@[i]->0 <= previous->0);
                            } else {
                                assert(earlier[i] && earlier[j]);
                            }
                        }
                    }
                } else {
                    assert(crosses_anchor(anchors@, partner@, index as int));
                }
            }
        }
        proof {
            assert forall|i: int|
                0 <= i < index && before@[i].decoration_owner is Some implies if partner@[i] is Some
                && stable@[i] {
                #[trigger] anchors@[i] || crosses_anchor(anchors@, partner@, i)
            } else {
                !anchors@[i]
            } by {
                assert(before_step[i] == anchors@[i]);
                if partner@[i] is Some && stable@[i] && !before_step[i] {
                    let other = choose|other: int|
                        0 <= other < before_step.len() && #[trigger] before_step[other] && (other
                            < i && partner@[other]->0 >= partner@[i]->0 || other > i
                            && partner@[other]->0 <= partner@[i]->0);
                    assert(anchors@[other]);
                }
            }
        }
        index += 1;
    }
    proof {
        assert(count == partner@.len());
        lemma_same_flags(owners, anchors@, partner@, undecorated(before@));
    }
    anchors
}

fn anchor_before(anchors: &Vec<bool>, partner: &Vec<Option<usize>>, index: usize) -> (found: Option<
    usize,
>)
    requires
        anchors@.len() == partner@.len(),
        index < anchors@.len(),
        forall|i: int| 0 <= i < anchors@.len() && #[trigger] anchors@[i] ==> partner@[i] is Some,
        anchors_ascend(anchors@, partner@),
    ensures
        forall|i: int|
            0 <= i < index && #[trigger] anchors@[i] ==> found is Some && partner@[i]->0
                <= found->0,
        found is Some ==> exists|i: int|
            0 <= i < index && #[trigger] anchors@[i] && partner@[i] == found,
{
    let mut at: usize = index;
    while at > 0
        invariant
            at <= index < anchors@.len(),
            anchors@.len() == partner@.len(),
            forall|i: int|
                0 <= i < anchors@.len() && #[trigger] anchors@[i] ==> partner@[i] is Some,
            anchors_ascend(anchors@, partner@),
            forall|i: int| at <= i < index ==> !(#[trigger] anchors@[i]),
        decreases at,
    {
        at -= 1;
        if anchors[at] {
            assert(anchors@[at as int]);
            return partner[at];
        }
    }
    None
}

fn anchor_after(anchors: &Vec<bool>, partner: &Vec<Option<usize>>, index: usize) -> (found: Option<
    usize,
>)
    requires
        anchors@.len() == partner@.len(),
        index < anchors@.len(),
        forall|i: int| 0 <= i < anchors@.len() && #[trigger] anchors@[i] ==> partner@[i] is Some,
        anchors_ascend(anchors@, partner@),
    ensures
        forall|i: int|
            index < i < anchors@.len() && #[trigger] anchors@[i] ==> found is Some && found->0
                <= partner@[i]->0,
        found is Some ==> exists|i: int|
            index < i < anchors@.len() && #[trigger] anchors@[i] && partner@[i] == found,
{
    assert(anchors.len() <= usize::MAX);
    let mut at: usize = index + 1;
    while at < anchors.len()
        invariant
            index < at <= anchors@.len(),
            anchors@.len() == partner@.len(),
            forall|i: int|
                0 <= i < anchors@.len() && #[trigger] anchors@[i] ==> partner@[i] is Some,
            anchors_ascend(anchors@, partner@),
            forall|i: int| index < i < at ==> !(#[trigger] anchors@[i]),
        decreases anchors@.len() - at,
    {
        if anchors[at] {
            assert(anchors@[at as int]);
            return partner[at];
        }
        at += 1;
    }
    None
}

} // verus!

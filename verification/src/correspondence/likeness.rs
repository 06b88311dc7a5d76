//! When two nodes of two revisions are alike, told from the trees alone.

use crate::correspondence::contexts::Scene;
use crate::correspondence::facts::{
    child_print, edge_words, header_words, print_words, prints_describe, symbols_describe, Facts, NodeFingerprints, PrintMode, Symbols,
};
use crate::correspondence::keys::{distinct_keys, lemma_text_words};
use crate::correspondence::links::{ContentRelation, UnitEdit};
use crate::correspondence::partners::Partners;
use crate::correspondence::script::matched_ok;
use crate::correspondence::tree::TreeDiff;
use crate::correspondence::units::UnitRecord;
use crate::correspondence::{facts_shared, has_matching, is_matching};
use crate::frontend::adapter::on_boundaries;
use crate::syntax::{
    children_hold, node_fits, ContentChannel, NodeId, SyntaxNode, SyntaxPair, SyntaxTree,
};
use vstd::prelude::*;
use vstd::utf8::encode_utf8;

verus! {

/// The child takes part in a comparison: layout never does, and comments only in full ones and in
/// those of shape.
pub open spec fn counts(node: SyntaxNode, mode: PrintMode) -> bool {
    match node.leaf {
        Some(leaf) => match leaf.channel {
            ContentChannel::Layout => false,
            ContentChannel::Comment => mode != PrintMode::Payload,
            _ => true,
        },
        None => true,
    }
}

/// Children that take part in a comparison, in order.
pub open spec fn counted(tree: SyntaxTree, index: int, mode: PrintMode) -> Seq<NodeId> {
    tree.nodes@[index].children@.filter(|id: NodeId| counts(tree.nodes@[id as int], mode))
}

/// The node is a leaf whose text can be told.
pub open spec fn spells(tree: SyntaxTree, index: int) -> bool {
    tree.nodes@[index].leaf is Some && on_boundaries(tree.source.data(), tree.nodes@[index].bytes)
}

/// Text of a node.
pub open spec fn text_of(tree: SyntaxTree, index: int) -> Seq<u8> {
    tree.source.data().subrange(
        tree.nodes@[index].bytes.start as int,
        tree.nodes@[index].bytes.end as int,
    )
}

/// Both nodes are of one kind, are marked alike by the parser and carry the same sort of content;
/// and, where texts are compared, leaves have the same text.
pub open spec fn match_alone(
    before: SyntaxTree,
    i: int,
    after: SyntaxTree,
    j: int,
    texts: bool,
) -> bool {
    let left = before.nodes@[i];
    let right = after.nodes@[j];
    &&& encode_utf8(left.kind@) == encode_utf8(right.kind@)
    &&& left.named == right.named && left.extra == right.extra && left.missing == right.missing
    &&& match (left.leaf, right.leaf) {
        (Some(left), Some(right)) => left.channel == right.channel,
        (None, None) => true,
        _ => false,
    }
    &&& texts ==> (spells(before, i) <==> spells(after, j)) && (spells(before, i) ==> text_of(
        before,
        i,
    ) == text_of(after, j))
}

/// Both nodes stand in the same field of their parents.
pub open spec fn share_field(left: SyntaxNode, right: SyntaxNode) -> bool {
    match (left.slot, right.slot) {
        (Some(left), Some(right)) => encode_utf8(left@) == encode_utf8(right@),
        (None, None) => true,
        _ => false,
    }
}

/// The nodes match, and so do their children that take part, one by one and field by field.
pub open spec fn alike(
    before: SyntaxTree,
    i: int,
    after: SyntaxTree,
    j: int,
    mode: PrintMode,
) -> bool
    decreases
            (if i < before.nodes@.len() {
                before.nodes@.len() - i
            } else {
                0
            }),
{
    let left = counted(before, i, mode);
    let right = counted(after, j, mode);
    &&& match_alone(before, i, after, j, mode != PrintMode::Shape)
    &&& left.len() == right.len()
    &&& forall|k: int|
        #![trigger left[k]]
        #![trigger right[k]]
        0 <= k < left.len() ==> share_field(
            before.nodes@[left[k] as int],
            after.nodes@[right[k] as int],
        ) && (if i < left[k] < before.nodes@.len() {
            alike(before, left[k] as int, after, right[k] as int, mode)
        } else {
            false
        })
}

/// The fingerprint for a comparison.
pub open spec fn print_of(prints: NodeFingerprints, mode: PrintMode) -> Option<usize> {
    match mode {
        PrintMode::Full => Some(prints.full),
        PrintMode::Shape => Some(prints.shape),
        PrintMode::Payload => prints.payload,
    }
}

/// Numbers agree exactly where the texts behind them do.
proof fn lemma_own_words(
    keys: Seq<Seq<usize>>,
    before: SyntaxTree,
    i: int,
    left: Symbols,
    after: SyntaxTree,
    j: int,
    right: Symbols,
    mode: PrintMode,
)
    requires
        distinct_keys(keys),
        symbols_describe(keys, before, i, left),
        symbols_describe(keys, after, j, right),
    ensures
        header_words(before.nodes@[i], left, mode) == header_words(after.nodes@[j], right, mode)
            <==> match_alone(before, i, after, j, mode != PrintMode::Shape),
        left.slot == right.slot <==> share_field(before.nodes@[i], after.nodes@[j]),
{
    let old_node = before.nodes@[i];
    let new_node = after.nodes@[j];
    let old_words = header_words(old_node, left, mode);
    let new_words = header_words(new_node, right, mode);
    lemma_text_words(encode_utf8(old_node.kind@), encode_utf8(new_node.kind@));
    assert(left.kind == right.kind <==> encode_utf8(old_node.kind@) == encode_utf8(new_node.kind@)) by {
        if encode_utf8(old_node.kind@) == encode_utf8(new_node.kind@) {
            assert(keys[left.kind as int] == keys[right.kind as int]);
        }
    }
    if let (Some(old_slot), Some(new_slot)) = (old_node.slot, new_node.slot) {
        lemma_text_words(encode_utf8(old_slot@), encode_utf8(new_slot@));
        if encode_utf8(old_slot@) == encode_utf8(new_slot@) {
            assert(keys[left.slot - 1] == keys[right.slot - 1]);
        }
    }
    lemma_text_words(text_of(before, i), text_of(after, j));
    if let (Some(old_text), Some(new_text)) = (left.payload, right.payload) {
        if text_of(before, i) == text_of(after, j) {
            assert(keys[old_text as int] == keys[new_text as int]);
        }
    }
    assert(old_words.len() == 7 && new_words.len() == 7);
    if old_words == new_words {
        assert(old_words[0] == left.kind && new_words[0] == right.kind);
        assert(old_words[1] == new_words[1]);
        assert(old_words[2] == new_words[2]);
        assert(old_words[3] == new_words[3]);
        assert(old_words[4] == new_words[4]);
        assert(old_words[5] == new_words[5]);
        assert(old_words[6] == new_words[6]);
    }
    if match_alone(before, i, after, j, mode != PrintMode::Shape) {
        assert(old_words =~= new_words);
    }
}

/// The edges of a fingerprint are the fields and fingerprints of the children that take part.
proof fn lemma_edges_counted(
    keys: Seq<Seq<usize>>,
    tree: SyntaxTree,
    facts: Facts,
    index: int,
    mode: PrintMode,
    count: int,
)
    requires
        facts.describes(keys, tree),
        tree.wf(),
        0 <= index < tree.nodes@.len(),
        0 <= count <= tree.nodes@[index].children@.len(),
    ensures
        ({
            let edges = edge_words(tree, facts.symbols@, facts.prints@, index, mode, count);
            let kept = tree.nodes@[index].children@.take(count).filter(
                |id: NodeId| counts(tree.nodes@[id as int], mode),
            );
            edges.len() == 2 * kept.len() && forall|k: int|
                #![trigger kept[k]]
                0 <= k < kept.len() ==> edges[2 * k] == facts.symbols@[kept[k] as int].slot && Some(
                    edges[2 * k + 1],
                ) == print_of(facts.prints@[kept[k] as int], mode) && index < kept[k]
                    < tree.nodes@.len() && counts(tree.nodes@[kept[k] as int], mode)
        }),
    decreases count,
{
    let children = tree.nodes@[index].children@;
    let keeps = |id: NodeId| counts(tree.nodes@[id as int], mode);
    reveal(Seq::filter);
    if count > 0 {
        lemma_edges_counted(keys, tree, facts, index, mode, count - 1);
        let fewer = children.take(count - 1).filter(keeps);
        let kept = children.take(count).filter(keeps);
        let child = children[count - 1];
        assert(children_hold(tree.nodes@, index));
        assert(node_fits(
            tree.nodes@[index],
            index,
            tree.nodes@.len() as int,
            tree.source.data().len() as int,
        ));
        assert(index < tree.nodes@[index].children[count - 1] < tree.nodes@.len());
        assert(prints_describe(keys, tree, facts.symbols@, facts.prints@, child as int));
        assert(children.take(count) =~= children.take(count - 1).push(child));
        children.take(count - 1).lemma_filter_push(child, keeps);
        let edges = edge_words(tree, facts.symbols@, facts.prints@, index, mode, count);
        assert(child_print(tree.nodes@[child as int], facts.prints@[child as int], mode) is Some
            <==> keeps(child));
        assert forall|k: int| #![trigger kept[k]] 0 <= k < kept.len() implies edges[2 * k]
            == facts.symbols@[kept[k] as int].slot && Some(edges[2 * k + 1]) == print_of(
            facts.prints@[kept[k] as int],
            mode,
        ) && index < kept[k] < tree.nodes@.len() && counts(
            tree.nodes@[kept[k] as int],
            mode,
        ) by {
            if k < fewer.len() {
                assert(kept[k] == fewer[k]);
            }
        }
    } else {
        assert(children.take(0) =~= Seq::<NodeId>::empty());
    }
}

/// Two nodes of the two revisions have the same fingerprint exactly where they are alike: the full
/// one with all but layout, that of payload with all but layout and comments, and that of shape
/// with all but layout and the texts of leaves.
#[verifier::spinoff_prover]
#[verifier::rlimit(60)]
pub proof fn law_prints_tell_likeness(
    keys: Seq<Seq<usize>>,
    before: SyntaxTree,
    before_facts: Facts,
    after: SyntaxTree,
    after_facts: Facts,
    i: int,
    j: int,
    mode: PrintMode,
)
    requires
        distinct_keys(keys),
        before.wf(),
        after.wf(),
        before_facts.describes(keys, before),
        after_facts.describes(keys, after),
        0 <= i < before.nodes@.len(),
        0 <= j < after.nodes@.len(),
        mode == PrintMode::Payload ==> counts(before.nodes@[i], mode) && counts(
            after.nodes@[j],
            mode,
        ),
    ensures
        print_of(before_facts.prints@[i], mode) == print_of(after_facts.prints@[j], mode) <==> alike(
            before,
            i,
            after,
            j,
            mode,
        ),
    decreases before.nodes@.len() - i,
{
    let left_count = before.nodes@[i].children@.len() as int;
    let right_count = after.nodes@[j].children@.len() as int;
    let left = counted(before, i, mode);
    let right = counted(after, j, mode);
    let left_words = print_words(before, before_facts.symbols@, before_facts.prints@, i, mode);
    let right_words = print_words(after, after_facts.symbols@, after_facts.prints@, j, mode);
    let left_edges = edge_words(
        before,
        before_facts.symbols@,
        before_facts.prints@,
        i,
        mode,
        left_count,
    );
    let right_edges = edge_words(
        after,
        after_facts.symbols@,
        after_facts.prints@,
        j,
        mode,
        right_count,
    );
    let left_head = header_words(before.nodes@[i], before_facts.symbols@[i], mode);
    let right_head = header_words(after.nodes@[j], after_facts.symbols@[j], mode);
    assert(prints_describe(keys, before, before_facts.symbols@, before_facts.prints@, i));
    assert(prints_describe(keys, after, after_facts.symbols@, after_facts.prints@, j));
    lemma_edges_counted(keys, before, before_facts, i, mode, left_count);
    lemma_edges_counted(keys, after, after_facts, j, mode, right_count);
    assert(before.nodes@[i].children@.take(left_count) =~= before.nodes@[i].children@);
    assert(after.nodes@[j].children@.take(right_count) =~= after.nodes@[j].children@);
    lemma_own_words(
        keys,
        before,
        i,
        before_facts.symbols@[i],
        after,
        j,
        after_facts.symbols@[j],
        mode,
    );
    assert forall|k: int| #![trigger left[k]] 0 <= k < left.len() && k < right.len() implies (
    print_of(before_facts.prints@[left[k] as int], mode) == print_of(
        after_facts.prints@[right[k] as int],
        mode,
    ) <==> alike(before, left[k] as int, after, right[k] as int, mode)) && (
    before_facts.symbols@[left[k] as int].slot == after_facts.symbols@[right[k] as int].slot
        <==> share_field(
        before.nodes@[left[k] as int],
        after.nodes@[right[k] as int],
    )) by {
        let b = left[k] as int;
        let a = right[k] as int;
        law_prints_tell_likeness(keys, before, before_facts, after, after_facts, b, a, mode);
        lemma_own_words(
            keys,
            before,
            b,
            before_facts.symbols@[b],
            after,
            a,
            after_facts.symbols@[a],
            mode,
        );
    }
    assert(left_words =~= left_head + left_edges && right_words =~= right_head + right_edges);
    if print_of(before_facts.prints@[i], mode) == print_of(after_facts.prints@[j], mode) {
        assert(left_words == right_words);
        assert(left_head.len() == 7 && right_head.len() == 7);
        assert(left_head =~= left_words.take(7) && right_head =~= right_words.take(7));
        assert(left_edges =~= left_words.skip(7) && right_edges =~= right_words.skip(7));
        assert forall|k: int|
            #![trigger left[k]]
            #![trigger right[k]]
            0 <= k < left.len() implies share_field(
            before.nodes@[left[k] as int],
            after.nodes@[right[k] as int],
        ) && (if i < left[k] < before.nodes@.len() {
            alike(before, left[k] as int, after, right[k] as int, mode)
        } else {
            false
        }) by {
            assert(left_edges[2 * k] == right_edges[2 * k]);
            assert(left_edges[2 * k + 1] == right_edges[2 * k + 1]);
            assert(left[k] == left[k] && right[k] == right[k]);
        }
    }
    if alike(before, i, after, j, mode) {
        assert forall|m: int| 0 <= m < left_edges.len() implies left_edges[m] == right_edges[m] by {
            let k = m / 2;
            assert(0 <= k < left.len() && k < right.len());
            let b = left[k] as int;
            let a = right[k] as int;
            assert(i < b < before.nodes@.len());
            assert(share_field(before.nodes@[b], after.nodes@[a]));
            assert(alike(before, b, after, a, mode));
            assert(left_edges[2 * k] == before_facts.symbols@[b].slot);
            assert(right_edges[2 * k] == after_facts.symbols@[a].slot);
            assert(Some(left_edges[2 * k + 1]) == Some(right_edges[2 * k + 1]));
            assert(m == 2 * k || m == 2 * k + 1);
        }
        assert(left_edges =~= right_edges);
        assert(left_words == right_words);
    }
}

/// The nodes are alike but for comments; two nodes that are nothing else are alike.
pub open spec fn alike_in_payload(before: SyntaxTree, i: int, after: SyntaxTree, j: int) -> bool {
    if counts(before.nodes@[i], PrintMode::Payload) && counts(after.nodes@[j], PrintMode::Payload) {
        alike(before, i, after, j, PrintMode::Payload)
    } else {
        !counts(before.nodes@[i], PrintMode::Payload) && !counts(
            after.nodes@[j],
            PrintMode::Payload,
        )
    }
}

/// The relation of two matched units is the strongest equality that holds of them, wherever they
/// stand: their sources are equal; or else they differ in layout alone; or else in layout and
/// comments alone; or else the unit was modified.
pub proof fn law_relation_is_the_strongest_equality(pair: SyntaxPair, tree: TreeDiff, k: int)
    requires
        pair.before.wf(),
        pair.after.wf(),
        has_matching(pair, tree),
        0 <= k < tree.units@.len(),
    ensures
        tree.units@[k] matches UnitEdit::Matched(unit) ==> {
            let b = unit.before as int;
            let a = unit.after as int;
            unit.relation == (if text_of(pair.before, b) == text_of(pair.after, a) {
                ContentRelation::SourceEqual
            } else if alike(pair.before, b, pair.after, a, PrintMode::Full) {
                ContentRelation::FullEqual
            } else if alike_in_payload(pair.before, b, pair.after, a) {
                ContentRelation::PayloadEqual
            } else {
                ContentRelation::Modified
            })
        },
{
    let (before_facts, after_facts, before, after, partners, stable) = choose|
        before_facts: Facts,
        after_facts: Facts,
        before: Seq<UnitRecord>,
        after: Seq<UnitRecord>,
        partners: Partners,
        stable: Seq<bool>,
    | #[trigger]
        is_matching(pair, tree, before_facts, after_facts, before, after, partners, stable);
    let scene = Scene { pair: &pair, before: &before_facts, after: &after_facts };
    let keys = choose|keys: Seq<Seq<usize>>| #[trigger]
        facts_shared(pair, keys, before_facts, after_facts);
    if let UnitEdit::Matched(unit) = tree.units@[k] {
        assert(matched_ok(scene, before, after, partners.before@, stable, unit));
        reveal(matched_ok);
        let b = unit.before as int;
        let a = unit.after as int;
        let i = choose|i: int|
            0 <= i < before.len() && (#[trigger] before[i]).id == unit.before
                && (partners.before@[i] matches Some(j) && j < after.len() && after[j as int].id
                == unit.after);
        assert(before[i].id < pair.before.nodes@.len());
        assert(after[partners.before@[i]->0 as int].id < pair.after.nodes@.len());
        law_prints_tell_likeness(
            keys,
            pair.before,
            before_facts,
            pair.after,
            after_facts,
            b,
            a,
            PrintMode::Full,
        );
        assert(prints_describe(keys, pair.before, before_facts.symbols@, before_facts.prints@, b));
        assert(prints_describe(keys, pair.after, after_facts.symbols@, after_facts.prints@, a));
        if counts(pair.before.nodes@[b], PrintMode::Payload) && counts(
            pair.after.nodes@[a],
            PrintMode::Payload,
        ) {
            law_prints_tell_likeness(
                keys,
                pair.before,
                before_facts,
                pair.after,
                after_facts,
                b,
                a,
                PrintMode::Payload,
            );
        }
    }
}

} // verus!

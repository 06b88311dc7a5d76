//! Match syntax within corresponding owners, then decide which physical rows can use those matches.

pub mod builder;
pub mod children;
pub mod contexts;
pub mod evidence;
pub mod facts;
pub mod fallbacks;
pub mod geometry;
pub mod keys;
pub mod leaves;
pub mod lines;
pub mod likeness;
pub mod links;
pub mod partners;
pub mod ranks;
pub mod recovery;
pub mod relocation;
pub mod scopes;
pub mod script;
pub mod tree;
pub mod units;

use crate::correspondence::builder::{is_flat, Builder};
use crate::correspondence::contexts::Scene;
use crate::correspondence::facts::{
    fingerprints, header_words, lemma_describes_extend, prints_describe, print_words,
    symbols_describe, Facts, PrintMode,
};
use crate::correspondence::fallbacks::{
    are_grown, edit_after, edit_before, fallbacks_apart, geometries_of, geometry_of, listed_before,
    local_line_fallbacks, reviews_lines, unit_geometries, FallbackIndex,
};
use crate::correspondence::geometry::{spans_meet, RowTexts};
use crate::correspondence::keys::{distinct_keys, lemma_text_words, Interner};
use crate::correspondence::lines::{
    anchors_settled, are_row_facts, edits_settled, fallbacks_fit, is_ending_edit, is_exact,
    line_links_from_tree_matches, link_fits, physical_line_correspondence_in, rows_ascend,
    rows_sound, scoped_physical_line_correspondence, steps_pair_rows, unit_links,
    PhysicalLineFacts, RowPairs,
};
use crate::correspondence::links::{
    LeafLink, LeafRelation, LineFallback, LineLink, RelocatedNode, UnitEdit,
};
use crate::correspondence::partners::Partners;
use crate::correspondence::relocation::{
    cross_owner_relocations, in_before_order, is_moved, is_reported, owner_ends, relocations_ok,
    reports_moves,
};
use crate::correspondence::scopes::ScopeProof;
use crate::correspondence::script::{
    after_units_of, follows_anchors, matched_ok, partner_ids, removed_units_of, sources_of,
    unit_linked_in, units_fit, unpaired_ids, ScriptInput,
};
use crate::correspondence::tree::TreeDiff;
use crate::correspondence::units::{
    is_stable_choice, lists_review_units, pair_units, records_describe, stable_unit_matches, unit_ids, unit_records,
    units_paired, UnitRecord,
};
use crate::frontend::adapter::on_boundaries;
use crate::source::Source;
use crate::span::Span;
use crate::syntax::{Language, SyntaxPair, SyntaxTree};
use vstd::prelude::*;

verus! {

/// Syntax matches and row matches of two revisions.
pub struct Correspondence {
    pub tree: TreeDiff,
    pub source: SourceProjection,
}

/// Physical line alignment and the choice of syntax or linewise review for each region.
pub struct SourceProjection {
    /// Unchanged rows.
    pub lines: Vec<LineLink>,
    /// Rows whose terminator changes.
    pub line_endings: Vec<LineLink>,
    /// Regions reviewed line by line.
    pub fallbacks: Vec<LineFallback>,
    /// Indices of the unit edits outside all fallbacks.
    pub review_units: Vec<usize>,
}

/// The link lies in both ranges.
pub open spec fn link_in(link: LineLink, before: Span, after: Span) -> bool {
    before.has(link.before as int) && after.has(link.after as int)
}

/// Links of two lists share no row and never cross.
pub open spec fn links_interleave(left: Seq<LineLink>, right: Seq<LineLink>) -> bool {
    forall|i: int, j: int|
        0 <= i < left.len() && 0 <= j < right.len() ==> ((#[trigger] left[i]).before < (
        #[trigger] right[j]).before && left[i].after < right[j].after) || (right[j].before
            < left[i].before && right[j].after < left[i].after)
}

/// Row links inside the supplied ranges.
pub open spec fn links_in(links: Seq<LineLink>, before: Span, after: Span) -> Seq<LineLink> {
    links.filter(|link: LineLink| link_in(link, before, after))
}

/// Links that lie in no range leave nothing.
proof fn lemma_no_links_in(links: Seq<LineLink>, before: Span, after: Span)
    requires
        forall|k: int| 0 <= k < links.len() ==> !link_in(#[trigger] links[k], before, after),
    ensures
        links_in(links, before, after) == Seq::<LineLink>::empty(),
    decreases links.len(),
{
    reveal(Seq::filter);
    if links.len() > 0 {
        assert forall|k: int| 0 <= k < links.drop_last().len() implies !link_in(
            #[trigger] links.drop_last()[k],
            before,
            after,
        ) by {
            assert(links[k] == links.drop_last()[k]);
        }
        lemma_no_links_in(links.drop_last(), before, after);
        assert(!link_in(links[links.len() - 1], before, after));
    }
}

/// Number of links that come before a row.
fn links_before(links: &Vec<LineLink>, row: usize) -> (count: usize)
    requires
        rows_ascend(links@),
    ensures
        count <= links@.len(),
        forall|k: int| 0 <= k < count ==> (#[trigger] links@[k]).before < row,
        forall|k: int| count <= k < links@.len() ==> (#[trigger] links@[k]).before >= row,
{
    let mut low: usize = 0;
    let mut high: usize = links.len();
    while low < high
        invariant
            rows_ascend(links@),
            low <= high <= links@.len(),
            forall|k: int| 0 <= k < low ==> (#[trigger] links@[k]).before < row,
            forall|k: int| high <= k < links@.len() ==> (#[trigger] links@[k]).before >= row,
        decreases high - low,
    {
        let middle = low + (high - low) / 2;
        if links[middle].before < row {
            low = middle + 1;
        } else {
            high = middle;
        }
    }
    low
}

/// Select the links inside the supplied ranges.
fn select_links(links: &Vec<LineLink>, before: Span, after: Span) -> (selected: Vec<LineLink>)
    requires
        rows_ascend(links@),
    ensures
        selected@ == links_in(links@, before, after),
{
    let start = links_before(links, before.start);
    let end = links_before(links, before.end);
    let ghost inside = |link: LineLink| link_in(link, before, after);
    proof {
        lemma_no_links_in(links@.take(start as int), before, after);
    }
    let mut selected: Vec<LineLink> = Vec::new();
    let mut index = start;
    while index < end
        invariant
            start <= index,
            index <= end || index == start,
            end <= links@.len(),
            inside == (|link: LineLink| link_in(link, before, after)),
            selected@ == links_in(links@.take(index as int), before, after),
        decreases end - index,
    {
        let link = links[index];
        proof {
            assert(links@.take(index + 1) =~= links@.take(index as int).push(link));
            links@.take(index as int).lemma_filter_push(link, inside);
        }
        if before.contains(link.before) && after.contains(link.after) {
            selected.push(link);
        }
        index += 1;
    }
    proof {
        assert forall|k: int| 0 <= k < links@.skip(index as int).len() implies !link_in(
            #[trigger] links@.skip(index as int)[k],
            before,
            after,
        ) by {
            assert(links@.skip(index as int)[k] == links@[index + k]);
        }
        lemma_no_links_in(links@.skip(index as int), before, after);
        assert(links@ =~= links@.take(index as int) + links@.skip(index as int));
        Seq::filter_distributes_over_add(
            links@.take(index as int),
            links@.skip(index as int),
            inside,
        );
        assert(selected@ =~= links_in(links@, before, after));
    }
    selected
}

impl SourceProjection {
    /// Rows are matched in order, unchanged ones byte for byte; fallbacks share no rows; and
    /// review units are unit edits, in order.
    pub open spec fn wf(self, pair: SyntaxPair, unit_count: int) -> bool {
        &&& rows_ascend(self.lines@)
        &&& rows_ascend(self.line_endings@)
        &&& links_interleave(self.lines@, self.line_endings@)
        &&& forall|k: int|
            0 <= k < self.lines@.len() ==> link_fits(pair, #[trigger] self.lines@[k]) && is_exact(
                pair,
                self.lines@[k],
            )
        &&& forall|k: int|
            0 <= k < self.line_endings@.len() ==> link_fits(
                pair,
                #[trigger] self.line_endings@[k],
            ) && is_ending_edit(pair, self.line_endings@[k])
        &&& fallbacks_fit(pair, self.fallbacks@)
        &&& fallbacks_apart(self.fallbacks@)
        &&& forall|i: int, j: int|
            0 <= i < j < self.fallbacks@.len() ==> !listed_before(
                #[trigger] self.fallbacks@[j],
                #[trigger] self.fallbacks@[i],
            )
        &&& forall|k: int|
            0 <= k < self.review_units@.len() ==> (#[trigger] self.review_units@[k]) < unit_count
        &&& forall|k: int, l: int|
            0 <= k < l < self.review_units@.len() ==> (#[trigger] self.review_units@[k]) < (
            #[trigger] self.review_units@[l])
    }

    /// Select exact line matches inside the supplied zero-based ranges.
    pub fn line_links_in(&self, before: Span, after: Span) -> (links: Vec<LineLink>)
        requires
            rows_ascend(self.lines@),
        ensures
            links@ == links_in(self.lines@, before, after),
    {
        select_links(&self.lines, before, after)
    }

    /// Select paired terminator edits inside the supplied zero-based ranges.
    pub fn line_ending_edits_in(&self, before: Span, after: Span) -> (links: Vec<LineLink>)
        requires
            rows_ascend(self.line_endings@),
        ensures
            links@ == links_in(self.line_endings@, before, after),
    {
        select_links(&self.line_endings, before, after)
    }

    /// Tree edits whose rows are not claimed by a linewise fallback.
    pub fn review_units(&self, tree: &TreeDiff) -> (edits: Vec<UnitEdit>)
        requires
            forall|k: int|
                0 <= k < self.review_units@.len() ==> (#[trigger] self.review_units@[k])
                    < tree.units@.len(),
        ensures
            edits@ == self.review_units@.map_values(|index: usize| tree.units@[index as int]),
    {
        let mut edits: Vec<UnitEdit> = Vec::new();
        let mut position: usize = 0;
        while position < self.review_units.len()
            invariant
                position <= self.review_units@.len(),
                forall|k: int|
                    0 <= k < self.review_units@.len() ==> (#[trigger] self.review_units@[k])
                        < tree.units@.len(),
                edits@.len() == position,
                forall|k: int|
                    0 <= k < position ==> (#[trigger] edits@[k])
                        == tree.units@[self.review_units@[k] as int],
            decreases self.review_units@.len() - position,
        {
            let index = self.review_units[position];
            assert(self.review_units@[position as int] == index);
            edits.push(tree.units[index]);
            position += 1;
        }
        assert(edits@ =~= self.review_units@.map_values(
            |index: usize| tree.units@[index as int],
        ));
        edits
    }
}

/// Exact leaf links join leaves that spell the same text.
pub open spec fn exact_leaves_agree(pair: SyntaxPair, links: Seq<LeafLink>) -> bool {
    forall|k: int|
        0 <= k < links.len() && (#[trigger] links[k]).relation == LeafRelation::Exact
            ==> leaves_agree(
            pair.before,
            links[k].before as int,
            pair.after,
            links[k].after as int,
        )
}

/// Two nodes have the same kind and, where they are leaves, the same text.
pub open spec fn leaves_agree(before: SyntaxTree, i: int, after: SyntaxTree, j: int) -> bool {
    let left = before.nodes@[i];
    let right = after.nodes@[j];
    &&& vstd::utf8::encode_utf8(left.kind@) == vstd::utf8::encode_utf8(right.kind@)
    &&& left.leaf is Some && on_boundaries(before.source.data(), left.bytes) <==> right.leaf is Some
        && on_boundaries(after.source.data(), right.bytes)
    &&& left.leaf is Some && on_boundaries(before.source.data(), left.bytes)
        ==> before.source.data().subrange(left.bytes.start as int, left.bytes.end as int)
        == after.source.data().subrange(right.bytes.start as int, right.bytes.end as int)
}

/// Equal content fingerprints mean equal kinds and equal leaf texts.
pub proof fn law_equal_prints_spell_alike(
    keys: Seq<Seq<usize>>,
    before: SyntaxTree,
    before_facts: Facts,
    i: int,
    after: SyntaxTree,
    after_facts: Facts,
    j: int,
)
    requires
        distinct_keys(keys),
        before_facts.describes(keys, before),
        after_facts.describes(keys, after),
        0 <= i < before.nodes@.len(),
        0 <= j < after.nodes@.len(),
        before_facts.prints@[i].full == after_facts.prints@[j].full,
    ensures
        leaves_agree(before, i, after, j),
{
    let left = before.nodes@[i];
    let right = after.nodes@[j];
    let left_symbols = before_facts.symbols@[i];
    let right_symbols = after_facts.symbols@[j];
    assert(prints_describe(keys, before, before_facts.symbols@, before_facts.prints@, i));
    assert(prints_describe(keys, after, after_facts.symbols@, after_facts.prints@, j));
    assert(symbols_describe(keys, before, i, left_symbols));
    assert(symbols_describe(keys, after, j, right_symbols));
    let left_words = print_words(
        before,
        before_facts.symbols@,
        before_facts.prints@,
        i,
        PrintMode::Full,
    );
    let right_words = print_words(
        after,
        after_facts.symbols@,
        after_facts.prints@,
        j,
        PrintMode::Full,
    );
    assert(left_words == right_words);
    let left_header = header_words(left, left_symbols, PrintMode::Full);
    let right_header = header_words(right, right_symbols, PrintMode::Full);
    assert forall|k: int| 0 <= k < 7 implies left_header[k] == right_header[k] by {
        assert(left_words[k] == left_header[k]);
        assert(right_words[k] == right_header[k]);
    }
    assert(left_header[0] == right_header[0]);
    assert(left_header[5] == right_header[5]);
    assert(left_header[6] == right_header[6]);
    lemma_text_words(
        vstd::utf8::encode_utf8(left.kind@),
        vstd::utf8::encode_utf8(right.kind@),
    );
    lemma_text_words(
        before.source.data().subrange(left.bytes.start as int, left.bytes.end as int),
        after.source.data().subrange(right.bytes.start as int, right.bytes.end as int),
    );
}

impl Correspondence {
    /// The matches fit both revisions; leaf links are one-to-one and exact ones spell alike;
    /// and the unit edits name every after unit once, in order.
    pub open spec fn wf(self, pair: SyntaxPair) -> bool {
        &&& self.tree.fits(pair.before.nodes@.len() as int, pair.after.nodes@.len() as int)
        &&& self.source.wf(pair, self.tree.units@.len() as int)
        &&& exact_leaves_agree(pair, self.tree.leaves.links@)
        &&& pair.after.is_review_list(
            after_units_of(self.tree.units@),
            pair.after.nodes@.len() as int,
        )
    }
}

/// Content that both revisions share has one number: the facts of both trees, interned together.
pub open spec fn facts_shared(
    pair: SyntaxPair,
    keys: Seq<Seq<usize>>,
    before: Facts,
    after: Facts,
) -> bool {
    &&& distinct_keys(keys)
    &&& before.describes(keys, pair.before)
    &&& after.describes(keys, pair.after)
}

/// The unit edits follow a pairing of the review units: an after unit is matched with its partner
/// or, where it has none, added; a before unit without a partner is removed.
pub open spec fn edits_follow(
    scene: Scene<'_>,
    before: Seq<UnitRecord>,
    after: Seq<UnitRecord>,
    partners: Partners,
    stable: Seq<bool>,
    edits: Seq<UnitEdit>,
) -> bool {
    &&& after_units_of(edits) == unit_ids(after)
    &&& sources_of(edits) == partner_ids(before, partners.after@, after.len() as int)
    &&& removed_units_of(edits) == unpaired_ids(before, partners.before@)
    &&& follows_anchors(before, partners.before@, after, stable, edits)
    &&& forall|k: int|
        0 <= k < edits.len() ==> ((#[trigger] edits[k]) matches UnitEdit::Matched(unit)
            ==> matched_ok(scene, before, after, partners.before@, stable, unit))
}

/// The leaf links, composites and scopes of the tree are those collected unit by unit: every
/// matched unit holds the links of its contents in its ranges.
pub open spec fn holds_links(scene: Scene<'_>, tree: TreeDiff, builder: Builder) -> bool {
    &&& tree.leaves == builder.leaves
    &&& tree.composites == builder.composites
    &&& tree.scopes == builder.scopes.links
    &&& forall|k: int|
        0 <= k < tree.units@.len() ==> ((#[trigger] tree.units@[k]) matches UnitEdit::Matched(unit)
            ==> unit_linked_in(scene, unit, builder))
}

/// The tree matches come from shared facts, a pairing of the review units, and the subtrees that
/// moved between owners.
pub open spec fn is_matching(
    pair: SyntaxPair,
    tree: TreeDiff,
    before_facts: Facts,
    after_facts: Facts,
    before: Seq<UnitRecord>,
    after: Seq<UnitRecord>,
    partners: Partners,
    stable: Seq<bool>,
) -> bool {
    let scene = Scene { pair: &pair, before: &before_facts, after: &after_facts };
    &&& exists|keys: Seq<Seq<usize>>| #[trigger] facts_shared(pair, keys, before_facts, after_facts)
    &&& records_describe(before, pair.before, before_facts)
    &&& records_describe(after, pair.after, after_facts)
    &&& units_paired(before, after, pair.before.root, pair.after.root, partners)
    &&& is_stable_choice(stable, partners.before@, before, after)
    &&& edits_follow(scene, before, after, partners, stable, tree.units@)
    &&& exists|builder: Builder| #[trigger] holds_links(scene, tree, builder)
    &&& is_flat(pair.before) ==> tree.composites@.len() == 0
    &&& relocations_ok(scene, tree.relocations@)
    &&& reports_moves(scene, tree, tree.relocations@)
    &&& in_before_order(tree.relocations@)
}

/// Some facts and some pairing of the review units lead to the tree matches.
pub open spec fn has_matching(pair: SyntaxPair, tree: TreeDiff) -> bool {
    exists|
        before_facts: Facts,
        after_facts: Facts,
        before: Seq<UnitRecord>,
        after: Seq<UnitRecord>,
        partners: Partners,
        stable: Seq<bool>,
    | #[trigger]
        is_matching(pair, tree, before_facts, after_facts, before, after, partners, stable)
}

/// The rows of a pairing, split by whether their terminators agree.
pub open spec fn splits_rows(
    pair: SyntaxPair,
    lines: Seq<LineLink>,
    line_endings: Seq<LineLink>,
    pairs: RowPairs,
) -> bool {
    &&& forall|k: int|
        0 <= k < lines.len() ==> pairs.partners.before@[(
        #[trigger] lines[k]).before as int] == Some(lines[k].after)
    &&& forall|k: int|
        0 <= k < line_endings.len() ==> pairs.partners.before@[(
        #[trigger] line_endings[k]).before as int] == Some(line_endings[k].after)
    &&& forall|i: int|
        0 <= i < pairs.partners.before@.len() ==> ((
        #[trigger] pairs.partners.before@[i]) matches Some(j) ==> {
            let link = LineLink { before: i as usize, after: j };
            if is_ending_edit(pair, link) {
                line_endings.contains(link)
            } else {
                lines.contains(link)
            }
        })
}

/// Some fallback holds a row of the unit edit.
pub open spec fn is_suppressed(
    pair: SyntaxPair,
    fallbacks: Seq<LineFallback>,
    edit: UnitEdit,
) -> bool {
    exists|k: int|
        0 <= k < fallbacks.len() && (spans_meet(
            (#[trigger] fallbacks[k]).before,
            edit_before(pair, edit),
        ) || spans_meet(fallbacks[k].after, edit_after(pair, edit)))
}

/// The units are exactly those that no fallback touches, in order.
pub open spec fn reviews_units(
    pair: SyntaxPair,
    tree: TreeDiff,
    fallbacks: Seq<LineFallback>,
    review_units: Seq<usize>,
) -> bool {
    forall|k: int|
        0 <= k < tree.units@.len() ==> (review_units.contains(k as usize) <==> !is_suppressed(
            pair,
            fallbacks,
            #[trigger] tree.units@[k],
        ))
}

/// All rows of a source.
pub open spec fn all_rows(source: Source) -> Span {
    Span { start: 0, end: source.line_seq().len() as usize }
}

/// Rows that the whole sources match by text.
pub open spec fn are_global_rows(
    pair: SyntaxPair,
    texts: RowTexts,
    physical: PhysicalLineFacts,
) -> bool {
    &&& texts.describes(pair.before.source, pair.after.source)
    &&& are_row_facts(
        pair,
        texts,
        all_rows(pair.before.source),
        all_rows(pair.after.source),
        physical,
    )
}

/// The row matches respect the owners and the moves of the tree matches, and leave no anchor out
/// that they could hold. Rows that the syntax would leave out or show twice are reviewed as
/// lines, and units that share none of those rows as units.
pub open spec fn projects_rows(
    pair: SyntaxPair,
    tree: TreeDiff,
    source: SourceProjection,
    pairs: RowPairs,
    proofs: ScopeProof,
    texts: RowTexts,
    physical: PhysicalLineFacts,
) -> bool {
    &&& are_global_rows(pair, texts, physical)
    &&& edits_settled(
        pair,
        tree,
        proofs,
        pairs,
        physical.links@,
        physical.links@.len() as int,
    )
    &&& reviews_lines(pair, tree, pairs, physical.missing_terminators@, source.fallbacks@)
    &&& are_grown(pair, tree, pairs, physical.missing_terminators@, source.fallbacks@)
    &&& reviews_units(pair, tree, source.fallbacks@, source.review_units@)
    &&& pairs.ok(pair)
    &&& proofs.proves(pair, tree.scopes@)
    &&& rows_sound(pair, tree, proofs, pairs)
    &&& anchors_settled(pair, tree, proofs, pairs)
    &&& steps_pair_rows(pair, texts, tree, proofs, physical.links@, pairs)
    &&& splits_rows(pair, source.lines@, source.line_endings@, pairs)
}

/// Where the trees have structure, rows follow it; plain lines follow the matched units.
pub open spec fn is_row_projection(
    pair: SyntaxPair,
    tree: TreeDiff,
    source: SourceProjection,
) -> bool {
    if pair.before.language == Language::Lines {
        &&& source.lines@ == unit_links(pair, tree.units@, tree.units@.len() as int)
        &&& source.line_endings@.len() == 0
        &&& source.fallbacks@.len() == 0
        &&& source.review_units@ == Seq::new(tree.units@.len(), |k: int| k as usize)
    } else {
        exists|
            pairs: RowPairs,
            proofs: ScopeProof,
            texts: RowTexts,
            physical: PhysicalLineFacts,
        | #[trigger]
            projects_rows(pair, tree, source, pairs, proofs, texts, physical)
    }
}

/// The row matches, split by whether their terminators agree.
fn row_links(pair: &SyntaxPair, pairs: &RowPairs) -> (links: (Vec<LineLink>, Vec<LineLink>))
    requires
        pairs.ok(*pair),
    ensures
        rows_ascend(links.0@),
        rows_ascend(links.1@),
        links_interleave(links.0@, links.1@),
        forall|k: int|
            0 <= k < links.0@.len() ==> link_fits(*pair, #[trigger] links.0@[k]) && is_exact(
                *pair,
                links.0@[k],
            ),
        forall|k: int|
            0 <= k < links.1@.len() ==> link_fits(*pair, #[trigger] links.1@[k])
                && is_ending_edit(*pair, links.1@[k]),
        splits_rows(*pair, links.0@, links.1@, *pairs),
{
    let lines = pairs.links(pair, true);
    let line_endings = pairs.links(pair, false);
    proof {
        assert forall|i: int, j: int|
            0 <= i < lines@.len() && 0 <= j < line_endings@.len() implies ((
        #[trigger] lines@[i]).before < (#[trigger] line_endings@[j]).before && lines@[i].after
            < line_endings@[j].after) || (line_endings@[j].before < lines@[i].before
            && line_endings@[j].after < lines@[i].after) by {
            let left = lines@[i];
            let right = line_endings@[j];
            assert(pairs.partners.before@[left.before as int] == Some(left.after));
            assert(pairs.partners.before@[right.before as int] == Some(right.after));
            assert(is_ending_edit(*pair, right) && !is_ending_edit(*pair, left));
        }
    }
    (lines, line_endings)
}

/// Choose the review of every region.
fn project_source(pair: &SyntaxPair, tree: &TreeDiff) -> (source: SourceProjection)
    requires
        pair.wf(),
        tree.fits(pair.before.nodes@.len() as int, pair.after.nodes@.len() as int),
    ensures
        source.wf(*pair, tree.units@.len() as int),
        is_row_projection(*pair, *tree, source),
{
    if pair.before.is_lines() {
        let lines = line_links_from_tree_matches(pair, tree);
        let mut review_units: Vec<usize> = Vec::new();
        let mut index: usize = 0;
        while index < tree.units.len()
            invariant
                index <= tree.units@.len(),
                review_units@.len() == index,
                forall|k: int| 0 <= k < index ==> (#[trigger] review_units@[k]) == k,
            decreases tree.units@.len() - index,
        {
            review_units.push(index);
            index += 1;
        }
        assert(review_units@ =~= Seq::new(tree.units@.len(), |k: int| k as usize));
        return SourceProjection {
            lines,
            line_endings: Vec::new(),
            fallbacks: Vec::new(),
            review_units,
        };
    }
    let texts = RowTexts::new(&pair.before.source, &pair.after.source);
    let whole_before = Span { start: 0, end: pair.before.source.line_count() };
    let whole_after = Span { start: 0, end: pair.after.source.line_count() };
    let physical = physical_line_correspondence_in(pair, &texts, whole_before, whole_after);
    let proofs = ScopeProof::new(pair, &tree.scopes);
    let pairs = scoped_physical_line_correspondence(pair, tree, &texts, &proofs, &physical);
    let (lines, line_endings) = row_links(pair, &pairs);
    let fallbacks = local_line_fallbacks(pair, tree, &pairs, &physical.missing_terminators);
    let units = unit_geometries(pair, tree, &pairs);
    let indexed = FallbackIndex::new(&fallbacks);
    let mut review_units: Vec<usize> = Vec::new();
    let mut index: usize = 0;
    while index < units.len()
        invariant
            indexed.indexes(fallbacks@),
            index <= units@.len(),
            units@.len() == tree.units@.len(),
            units@ == geometries_of(*pair, pairs, *tree),
            forall|k: int|
                0 <= k < index ==> (review_units@.contains(k as usize) <==> !is_suppressed(
                    *pair,
                    fallbacks@,
                    #[trigger] tree.units@[k],
                )),
            forall|k: int|
                0 <= k < review_units@.len() ==> (#[trigger] review_units@[k]) < index,
            forall|k: int, l: int|
                0 <= k < l < review_units@.len() ==> (#[trigger] review_units@[k]) < (
                #[trigger] review_units@[l]),
        decreases units@.len() - index,
    {
        let ghost fewer = review_units@;
        if !indexed.suppresses(units[index].before, units[index].after, Ghost(fallbacks@)) {
            review_units.push(index);
        }
        proof {
            let edit = tree.units@[index as int];
            assert(units@[index as int] == geometry_of(*pair, pairs, edit));
            assert forall|k: int| 0 <= k < index + 1 implies (review_units@.contains(k as usize)
                <==> !is_suppressed(*pair, fallbacks@, #[trigger] tree.units@[k])) by {
                if k < index {
                    if fewer.contains(k as usize) {
                        let at = choose|at: int| 0 <= at < fewer.len() && fewer[at] == k as usize;
                        assert(review_units@[at] == k as usize);
                    }
                    if review_units@.contains(k as usize) {
                        let at = choose|at: int|
                            0 <= at < review_units@.len() && review_units@[at] == k as usize;
                        assert(fewer[at] == k as usize);
                    }
                } else {
                    if review_units@.len() > fewer.len() {
                        assert(review_units@[fewer.len() as int] == k as usize);
                    } else if review_units@.contains(k as usize) {
                        let at = choose|at: int|
                            0 <= at < review_units@.len() && review_units@[at] == k as usize;
                        assert(review_units@[at] < index);
                    }
                }
            }
        }
        index += 1;
    }
    let source = SourceProjection { lines, line_endings, fallbacks, review_units };
    proof {
        assert(all_rows(pair.before.source) == whole_before);
        assert(all_rows(pair.after.source) == whole_after);
        assert(are_global_rows(*pair, texts, physical));
        assert(projects_rows(*pair, *tree, source, pairs, proofs, texts, physical));
    }
    source
}

/// Match two revisions.
pub fn correspond(pair: &SyntaxPair) -> (correspondence: Correspondence)
    requires
        pair.wf(),
    ensures
        correspondence.wf(*pair),
        has_matching(*pair, correspondence.tree),
        is_row_projection(*pair, correspondence.tree, correspondence.source),
{
    let mut interner = Interner::new(pair.before.nodes.len());
    let before_facts = fingerprints(&pair.before, &mut interner);
    let ghost middle = interner@;
    let after_facts = fingerprints(&pair.after, &mut interner);
    proof {
        interner.lemma_distinct();
        lemma_describes_extend(interner@, middle, pair.before, before_facts);
    }
    let scene = Scene { pair, before: &before_facts, after: &after_facts };
    let before_units = unit_records(&pair.before, &before_facts);
    let after_units = unit_records(&pair.after, &after_facts);
    let partners = pair_units(&before_units, &after_units, pair.before.root, pair.after.root);
    let stable = stable_unit_matches(&partners.before, &before_units, &after_units);
    let mut builder = Builder::new(&scene);
    let input = ScriptInput {
        scene,
        before: &before_units,
        after: &after_units,
        partners: &partners,
        stable: &stable,
    };
    assert(units_fit(before_units@, before_facts));
    assert(units_fit(after_units@, after_facts));
    let units = input.unit_script(&mut builder);
    let ghost linked = builder;
    let Builder { leaves, composites, scopes } = builder;
    let mut tree = TreeDiff {
        units,
        leaves,
        composites,
        relocations: Vec::new(),
        scopes: scopes.links,
    };
    assert(tree.fits(pair.before.nodes@.len() as int, pair.after.nodes@.len() as int));
    let relocations = cross_owner_relocations(&scene, &tree);
    let ghost unmoved = tree;
    tree.relocations = relocations;
    let source = project_source(pair, &tree);
    proof {
        assert(facts_shared(*pair, interner@, before_facts, after_facts));
        assert(owner_ends(tree) =~= owner_ends(unmoved));
        assert(edits_follow(
            scene,
            before_units@,
            after_units@,
            partners,
            stable@,
            tree.units@,
        ));
        assert forall|node: RelocatedNode| #[trigger]
            is_moved(scene, tree, tree.units@.len() as int, node) implies is_reported(
            scene,
            tree.relocations@,
            node,
        ) by {
            assert(is_moved(scene, unmoved, unmoved.units@.len() as int, node));
        }
        assert forall|k: int| 0 <= k < tree.relocations@.len() implies is_moved(
            scene,
            tree,
            tree.units@.len() as int,
            #[trigger] tree.relocations@[k],
        ) by {
            assert(is_moved(scene, unmoved, unmoved.units@.len() as int, tree.relocations@[k]));
        }
        assert(reports_moves(scene, tree, tree.relocations@));
        assert(holds_links(scene, tree, linked));
        assert(is_matching(
            *pair,
            tree,
            before_facts,
            after_facts,
            before_units@,
            after_units@,
            partners,
            stable@,
        ));
        assert(has_matching(*pair, tree));
        reveal(lists_review_units);
        assert forall|k: int|
            0 <= k < tree.leaves.links@.len() && (#[trigger] tree.leaves.links@[k]).relation
                == LeafRelation::Exact implies leaves_agree(
            pair.before,
            tree.leaves.links@[k].before as int,
            pair.after,
            tree.leaves.links@[k].after as int,
        ) by {
            law_equal_prints_spell_alike(
                interner@,
                pair.before,
                before_facts,
                tree.leaves.links@[k].before as int,
                pair.after,
                after_facts,
                tree.leaves.links@[k].after as int,
            );
        }
    }
    Correspondence { tree, source }
}

} // verus!

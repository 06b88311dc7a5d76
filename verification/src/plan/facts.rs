//! Monotone physical-line facts of one region.

use crate::correspondence::lines::{is_ending_edit, is_exact, link_fits, rows_ascend};
use crate::correspondence::geometry::{row_span, zero_based_lines};
use crate::correspondence::links::{LineLink, NodeLink, ScopeLink};
use crate::correspondence::{link_in, links_in, links_interleave};
use crate::context::{context_gap_fits_halos, CONTEXT_HALO_RADIUS};
use crate::plan::regions::{
    is_retained, region_ok, regions_in_order, retained_by, retained_regions, takes_regions,
    RetainedRegion, Retention,
};
use crate::plan::scene::{row_pair_equal, rows_equal, PlanScene};
use crate::source::Source;
use crate::span::Span;
use crate::syntax::SyntaxPair;
use crate::text::{
    is_substantive, lemma_encode_injective, same_bytes, substantive_checkpoint_text,
};
use vstd::prelude::*;

verus! {

/// Physical rows before they are selected or abbreviated; rows count from zero.
#[derive(Clone, Copy, Debug, PartialEq, Eq, Structural)]
pub enum LineFact {
    /// Unchanged rows; a strong one splits replacements.
    Context { before: usize, after: usize, strong: bool },
    /// Old rows replaced by current rows.
    Edit { before: Span, after: Span },
    /// A physically paired row kept atomic so its concrete terminator stays visible.
    TerminatorEdit { before: usize, after: usize },
    /// Retained structure whose layout or place changed.
    Reflow { before: Span, after: Span },
}

/// Old rows of a fact.
pub open spec fn before_of(fact: LineFact) -> Span {
    match fact {
        LineFact::Context { before, after, strong } => Span {
            start: before,
            end: (before + 1) as usize,
        },
        LineFact::Edit { before, after } => before,
        LineFact::TerminatorEdit { before, after } => Span {
            start: before,
            end: (before + 1) as usize,
        },
        LineFact::Reflow { before, after } => before,
    }
}

/// Current rows of a fact.
pub open spec fn after_of(fact: LineFact) -> Span {
    match fact {
        LineFact::Context { before, after, strong } => Span {
            start: after,
            end: (after + 1) as usize,
        },
        LineFact::Edit { before, after } => after,
        LineFact::TerminatorEdit { before, after } => Span {
            start: after,
            end: (after + 1) as usize,
        },
        LineFact::Reflow { before, after } => after,
    }
}

/// The fact is true of its rows.
pub open spec fn fact_ok(scene: PlanScene<'_>, fact: LineFact) -> bool {
    match fact {
        LineFact::Context { before, after, strong } => link_fits(
            *scene.pair,
            LineLink { before, after },
        ) && is_exact(*scene.pair, LineLink { before, after }),
        LineFact::TerminatorEdit { before, after } => link_fits(
            *scene.pair,
            LineLink { before, after },
        ) && is_ending_edit(*scene.pair, LineLink { before, after }),
        LineFact::Edit { before, after } => {
            &&& before.start <= before.end <= scene.before_count()
            &&& after.start <= after.end <= scene.after_count()
            &&& before.start < before.end || after.start < after.end
        },
        LineFact::Reflow { before, after } => {
            &&& before.start < before.end <= scene.before_count()
            &&& after.start < after.end <= scene.after_count()
            &&& is_retained(scene, before, after)
        },
    }
}

pub open spec fn facts_ok(scene: PlanScene<'_>, facts: Seq<LineFact>) -> bool {
    forall|k: int| 0 <= k < facts.len() ==> fact_ok(scene, #[trigger] facts[k])
}

/// Rows of both revisions from which a run of facts starts or where it ends.
pub struct Corner {
    pub before: int,
    pub after: int,
}

/// First rows of a fact.
pub open spec fn start_of(fact: LineFact) -> Corner {
    Corner { before: before_of(fact).start as int, after: after_of(fact).start as int }
}

/// Rows just behind a fact.
pub open spec fn end_of(fact: LineFact) -> Corner {
    Corner { before: before_of(fact).end as int, after: after_of(fact).end as int }
}

/// The facts cover the rows between two corners without gaps or overlaps, in order.
pub open spec fn tiles(facts: Seq<LineFact>, start: Corner, end: Corner) -> bool
    decreases facts.len(),
{
    if facts.len() == 0 {
        start == end
    } else {
        end_of(facts.last()) == end && tiles(facts.drop_last(), start, start_of(facts.last()))
    }
}

/// One more fact extends a run.
proof fn lemma_tiles_push(facts: Seq<LineFact>, start: Corner, fact: LineFact)
    requires
        tiles(facts, start, start_of(fact)),
    ensures
        tiles(facts.push(fact), start, end_of(fact)),
{
    assert(facts.push(fact).drop_last() =~= facts);
}

/// A run that starts where another ends extends it.
proof fn lemma_tiles_concat(
    first: Seq<LineFact>,
    second: Seq<LineFact>,
    start: Corner,
    middle: Corner,
    end: Corner,
)
    requires
        tiles(first, start, middle),
        tiles(second, middle, end),
    ensures
        tiles(first + second, start, end),
    decreases second.len(),
{
    if second.len() == 0 {
        assert(first + second =~= first);
    } else {
        lemma_tiles_concat(
            first,
            second.drop_last(),
            start,
            middle,
            start_of(second.last()),
        );
        assert((first + second).drop_last() =~= first + second.drop_last());
        assert((first + second).last() == second.last());
    }
}

/// Facts of a run come in order: each one ends before a later one starts.
pub proof fn lemma_tiles_order(facts: Seq<LineFact>, start: Corner, end: Corner, scene: PlanScene<'_>)
    requires
        tiles(facts, start, end),
        facts_ok(scene, facts),
        scene.wf(),
    ensures
        start.before <= end.before,
        start.after <= end.after,
        forall|k: int|
            0 <= k < facts.len() ==> start.before <= before_of(#[trigger] facts[k]).start
                && before_of(facts[k]).end <= end.before && start.after <= after_of(facts[k]).start
                && after_of(facts[k]).end <= end.after,
        forall|i: int, j: int|
            0 <= i < j < facts.len() ==> before_of(#[trigger] facts[i]).end <= before_of(
                #[trigger] facts[j],
            ).start && after_of(facts[i]).end <= after_of(facts[j]).start,
{
    assert(forall|k: int| 0 <= k < facts.len() ==> #[trigger] upright(facts[k])) by {
        scene.pair.before.source.lemma_line_count();
        scene.pair.after.source.lemma_line_count();
        assert forall|k: int| 0 <= k < facts.len() implies #[trigger] upright(facts[k]) by {
            assert(fact_ok(scene, facts[k]));
        }
    }
    lemma_upright_order(facts, start, end);
}

/// No range of the fact runs backwards.
pub open spec fn upright(fact: LineFact) -> bool {
    before_of(fact).start <= before_of(fact).end && after_of(fact).start <= after_of(fact).end
}

proof fn lemma_upright_order(facts: Seq<LineFact>, start: Corner, end: Corner)
    requires
        tiles(facts, start, end),
        forall|k: int| 0 <= k < facts.len() ==> #[trigger] upright(facts[k]),
    ensures
        start.before <= end.before,
        start.after <= end.after,
        forall|k: int|
            0 <= k < facts.len() ==> start.before <= before_of(#[trigger] facts[k]).start
                && before_of(facts[k]).end <= end.before && start.after <= after_of(facts[k]).start
                && after_of(facts[k]).end <= end.after,
        forall|i: int, j: int|
            0 <= i < j < facts.len() ==> before_of(#[trigger] facts[i]).end <= before_of(
                #[trigger] facts[j],
            ).start && after_of(facts[i]).end <= after_of(facts[j]).start,
    decreases facts.len(),
{
    if facts.len() > 0 {
        let rest = facts.drop_last();
        let last = facts.last();
        assert(upright(facts[facts.len() - 1]));
        assert forall|k: int| 0 <= k < rest.len() implies #[trigger] upright(rest[k]) by {
            assert(upright(facts[k]));
        }
        lemma_upright_order(rest, start, start_of(last));
        assert forall|k: int| 0 <= k < facts.len() implies start.before <= before_of(
            #[trigger] facts[k],
        ).start && before_of(facts[k]).end <= end.before && start.after <= after_of(facts[k]).start
            && after_of(facts[k]).end <= end.after by {
            if k < rest.len() {
                assert(rest[k] == facts[k]);
            }
        }
        assert forall|i: int, j: int| 0 <= i < j < facts.len() implies before_of(
            #[trigger] facts[i],
        ).end <= before_of(#[trigger] facts[j]).start && after_of(facts[i]).end <= after_of(
            facts[j],
        ).start by {
            assert(rest[i] == facts[i]);
            if j < rest.len() {
                assert(rest[j] == facts[j]);
            }
        }
    }
}

/// Every old row between the corners belongs to some fact of the run.
pub proof fn lemma_tiles_cover_before(facts: Seq<LineFact>, start: Corner, end: Corner, row: int) -> (k:
    int)
    requires
        tiles(facts, start, end),
        start.before <= row < end.before,
    ensures
        0 <= k < facts.len(),
        before_of(facts[k]).has(row),
    decreases facts.len(),
{
    let last = facts.last();
    if before_of(last).start <= row {
        facts.len() - 1
    } else {
        let k = lemma_tiles_cover_before(facts.drop_last(), start, start_of(last), row);
        assert(facts.drop_last()[k] == facts[k]);
        k
    }
}

/// Every current row between the corners belongs to some fact of the run.
pub proof fn lemma_tiles_cover_after(facts: Seq<LineFact>, start: Corner, end: Corner, row: int) -> (k:
    int)
    requires
        tiles(facts, start, end),
        start.after <= row < end.after,
    ensures
        0 <= k < facts.len(),
        after_of(facts[k]).has(row),
    decreases facts.len(),
{
    let last = facts.last();
    if after_of(last).start <= row {
        facts.len() - 1
    } else {
        let k = lemma_tiles_cover_after(facts.drop_last(), start, start_of(last), row);
        assert(facts.drop_last()[k] == facts[k]);
        k
    }
}

impl LineFact {
    /// Everything but unchanged rows deserves review.
    pub fn is_signal(&self) -> (result: bool)
        ensures
            result == !(self is Context),
    {
        !matches!(self, LineFact::Context { .. })
    }

    pub fn before_rows(&self) -> (rows: Span)
        requires
            before_of(*self).start < usize::MAX,
        ensures
            rows == before_of(*self),
    {
        match *self {
            LineFact::Context { before, .. } => Span { start: before, end: before + 1 },
            LineFact::Edit { before, .. } => before,
            LineFact::TerminatorEdit { before, .. } => Span { start: before, end: before + 1 },
            LineFact::Reflow { before, .. } => before,
        }
    }

    pub fn after_rows(&self) -> (rows: Span)
        requires
            after_of(*self).start < usize::MAX,
        ensures
            rows == after_of(*self),
    {
        match *self {
            LineFact::Context { after, .. } => Span { start: after, end: after + 1 },
            LineFact::Edit { after, .. } => after,
            LineFact::TerminatorEdit { after, .. } => Span { start: after, end: after + 1 },
            LineFact::Reflow { after, .. } => after,
        }
    }
}

/// How exact correspondence participates in one physical replacement.
#[derive(Clone, Copy, Debug, PartialEq, Eq, Structural)]
pub enum AnchorBasis {
    /// Exact physical rows are the only available structure for line-oriented content.
    Physical,
    /// Closed subtrees anchor; remaining exact rows only guide display cadence.
    Syntax {
        /// Shared outer rows frame the same source owner instead of a renamed replacement.
        same_owner: bool,
    },
}

/// Facts of a region under construction, and the rows that follow them.
struct FactRun {
    facts: Vec<LineFact>,
    before: usize,
    after: usize,
}

impl FactRun {
    spec fn ok(self, scene: PlanScene<'_>, start: Corner) -> bool {
        &&& facts_ok(scene, self.facts@)
        &&& tiles(
            self.facts@,
            start,
            Corner { before: self.before as int, after: self.after as int },
        )
    }

    /// Rows up to a checkpoint are a replacement.
    fn edit_until(&mut self, scene: &PlanScene<'_>, before: usize, after: usize, Ghost(start): Ghost<Corner>)
        requires
            scene.wf(),
            old(self).ok(*scene, start),
            old(self).before <= before <= scene.before_count(),
            old(self).after <= after <= scene.after_count(),
        ensures
            final(self).ok(*scene, start),
            final(self).before == before,
            final(self).after == after,
            lists_all(old(self).facts@, final(self).facts@),
            edited(old(self).facts@, final(self).facts@),
    {
        let ghost earlier = self.facts@;
        if self.before < before || self.after < after {
            let fact = LineFact::Edit {
                before: Span { start: self.before, end: before },
                after: Span { start: self.after, end: after },
            };
            proof {
                lemma_tiles_push(self.facts@, start, fact);
            }
            self.facts.push(fact);
        }
        self.before = before;
        self.after = after;
        proof {
            assert forall|k: int| 0 <= k < earlier.len() implies self.facts@.contains(
                #[trigger] earlier[k],
            ) by {
                assert(self.facts@[k] == earlier[k]);
            }
        }
    }

    /// Append a fact that starts at the current rows.
    fn push(&mut self, scene: &PlanScene<'_>, fact: LineFact, Ghost(start): Ghost<Corner>)
        requires
            scene.wf(),
            old(self).ok(*scene, start),
            fact_ok(*scene, fact),
            start_of(fact) == (Corner {
                before: old(self).before as int,
                after: old(self).after as int,
            }),
        ensures
            final(self).ok(*scene, start),
            final(self).before == end_of(fact).before,
            final(self).after == end_of(fact).after,
            lists_all(old(self).facts@, final(self).facts@),
            final(self).facts@.contains(fact),
            final(self).facts@ == old(self).facts@.push(fact),
    {
        let ghost earlier = self.facts@;
        proof {
            scene.pair.before.source.lemma_line_count();
            scene.pair.after.source.lemma_line_count();
            lemma_tiles_push(self.facts@, start, fact);
        }
        self.before = fact.before_rows().end;
        self.after = fact.after_rows().end;
        self.facts.push(fact);
        proof {
            assert(self.facts@[earlier.len() as int] == fact);
            assert forall|k: int| 0 <= k < earlier.len() implies self.facts@.contains(
                #[trigger] earlier[k],
            ) by {
                assert(self.facts@[k] == earlier[k]);
            }
        }
    }
}

/// The row spells a character that carries content.
pub open spec fn carries_content(source: Source, row: int) -> bool {
    exists|text: Seq<char>| #[trigger]
        vstd::utf8::encode_utf8(text) == source.line_content(source.line_seq()[row])
            && has_substantive(text)
}

/// Some character carries content.
pub open spec fn has_substantive(text: Seq<char>) -> bool {
    exists|i: int| 0 <= i < text.len() && is_substantive(#[trigger] text[i])
}

/// Both nodes are named inside their sources, and named alike.
pub open spec fn named_alike(pair: SyntaxPair, before: int, after: int) -> bool {
    let old_source = pair.before.source.data();
    let new_source = pair.after.source.data();
    match (pair.before.nodes@[before].identity, pair.after.nodes@[after].identity) {
        (Some(left), Some(right)) => {
            &&& left.start <= left.end <= old_source.len()
            &&& right.start <= right.end <= new_source.len()
            &&& old_source.subrange(left.start as int, left.end as int) == new_source.subrange(
                right.start as int,
                right.end as int,
            )
        },
        _ => false,
    }
}

/// The rows close both nodes of the scope link, which begin on earlier rows and are named alike.
pub open spec fn closes_scope(pair: SyntaxPair, scope: ScopeLink, link: LineLink) -> bool {
    let before = row_span(pair.before, scope.before as int);
    let after = row_span(pair.after, scope.after as int);
    &&& before.start < link.before
    &&& before.end == link.before + 1
    &&& after.start < link.after
    &&& after.end == link.after + 1
    &&& named_alike(pair, scope.before as int, scope.after as int)
}

/// The rows close some pair of matched owners.
pub open spec fn closes_owner(scene: PlanScene<'_>, link: LineLink) -> bool {
    exists|k: int|
        0 <= k < scene.graph.tree.scopes@.len() && closes_scope(
            *scene.pair,
            #[trigger] scene.graph.tree.scopes@[k],
            link,
        )
}

/// Whether rows close some pair of matched owners.
fn rows_close_owner(scene: &PlanScene<'_>, link: LineLink) -> (result: bool)
    requires
        scene.wf(),
        link_fits(*scene.pair, link),
    ensures
        result == closes_owner(*scene, link),
{
    let mut index: usize = 0;
    while index < scene.graph.tree.scopes.len()
        invariant
            scene.wf(),
            link_fits(*scene.pair, link),
            index <= scene.graph.tree.scopes@.len(),
            forall|k: int|
                0 <= k < index ==> !closes_scope(
                    *scene.pair,
                    #[trigger] scene.graph.tree.scopes@[k],
                    link,
                ),
        decreases scene.graph.tree.scopes@.len() - index,
    {
        let scope = scene.graph.tree.scopes[index];
        assert(scene.graph.tree.scopes@[index as int] == scope);
        let before = zero_based_lines(&scene.pair.before, scope.before);
        let after = zero_based_lines(&scene.pair.after, scope.after);
        if before.start < link.before && before.end == link.before + 1 && after.start < link.after
            && after.end == link.after + 1 {
            let old_source = &scene.pair.before.source;
            let new_source = &scene.pair.after.source;
            let old_name = scene.pair.before.nodes[scope.before].identity;
            let new_name = scene.pair.after.nodes[scope.after].identity;
            if let (Some(left), Some(right)) = (old_name, new_name) {
                if left.start <= left.end && left.end <= old_source.byte_len() && right.start
                    <= right.end && right.end <= new_source.byte_len() && same_bytes(
                    old_source.as_bytes(),
                    left.start,
                    left.end,
                    new_source.as_bytes(),
                    right.start,
                    right.end,
                ) {
                    assert(closes_scope(
                        *scene.pair,
                        scene.graph.tree.scopes@[index as int],
                        link,
                    ));
                    return true;
                }
            }
        }
        index += 1;
    }
    false
}

/// Equal rows that carry content split replacements.
#[verifier::opaque]
pub open spec fn is_checkpoint(scene: PlanScene<'_>, link: LineLink) -> bool {
    row_pair_equal(*scene.pair, link.before as int, link.after as int) && carries_content(
        scene.pair.after.source,
        link.after as int,
    )
}

/// Whether an exact row pair carries content that can split a replacement.
pub fn line_link_is_display_checkpoint(scene: &PlanScene<'_>, link: LineLink) -> (result: bool)
    requires
        scene.wf(),
        link_fits(*scene.pair, link),
    ensures
        result == is_checkpoint(*scene, link),
{
    proof {
        reveal(is_checkpoint);
        scene.pair.after.source.lemma_line_boundaries(link.after as int);
        assert(crate::source::is_line_of(
            scene.pair.after.source.data(),
            scene.pair.after.source.line_seq()[link.after as int],
        ));
    }
    if !scene.pair.before.source.same_full_text(
        link.before,
        &scene.pair.after.source,
        link.after,
    ) {
        return false;
    }
    let line = scene.pair.after.source.lines()[link.after];
    match scene.pair.after.source.slice(line.content_bytes.start, line.content_bytes.end) {
        Some(text) => {
            proof {
                assert forall|other: Seq<char>| #[trigger]
                    vstd::utf8::encode_utf8(other) == scene.pair.after.source.line_content(
                        line,
                    ) implies other == text@ by {
                    lemma_encode_injective(other, text@);
                }
            }
            substantive_checkpoint_text(text)
        },
        None => false,
    }
}

/// The unchanged row pair splits replacements: where physical rows anchor, it is a checkpoint;
/// otherwise it closes an owner.
pub open spec fn anchors(scene: PlanScene<'_>, basis: AnchorBasis, link: LineLink) -> bool {
    match basis {
        AnchorBasis::Physical => is_checkpoint(scene, link),
        AnchorBasis::Syntax { same_owner } => closes_owner(scene, link),
    }
}

/// The two rows correspond inside structure that is retained as it was.
pub open spec fn in_exact_region(regions: Seq<RetainedRegion>, before: usize, after: usize) -> bool {
    exists|k: int|
        0 <= k < regions.len() && (#[trigger] regions[k]).retention == Retention::Exact
            && regions[k].before.has(before as int) && before - regions[k].before.start == after
            - regions[k].after.start
}

/// Where the fact comes from: an unchanged row is linked, and strong exactly where it anchors, or
/// it lies in retained structure; a terminator edit is linked; layout changes are those of retained
/// structure.
pub open spec fn is_founded(
    scene: PlanScene<'_>,
    regions: Seq<RetainedRegion>,
    basis: AnchorBasis,
    fact: LineFact,
) -> bool {
    match fact {
        LineFact::Context { before, after, strong } => {
            ||| strong && in_exact_region(regions, before, after)
            ||| scene.graph.source.lines@.contains(LineLink { before, after }) && strong == anchors(
                scene,
                basis,
                LineLink { before, after },
            )
        },
        LineFact::Edit { before, after } => true,
        LineFact::TerminatorEdit { before, after } => scene.graph.source.line_endings@.contains(
            LineLink { before, after },
        ),
        LineFact::Reflow { before, after } => exists|k: int|
            0 <= k < regions.len() && (#[trigger] regions[k]).retention == Retention::Reflow
                && regions[k].before == before && regions[k].after == after,
    }
}

/// All facts are founded.
#[verifier::opaque]
pub open spec fn are_founded(
    scene: PlanScene<'_>,
    regions: Seq<RetainedRegion>,
    basis: AnchorBasis,
    facts: Seq<LineFact>,
) -> bool {
    forall|k: int| 0 <= k < facts.len() ==> is_founded(scene, regions, basis, #[trigger] facts[k])
}

/// One more founded fact, or a replacement before it.
proof fn lemma_founded_push(
    scene: PlanScene<'_>,
    regions: Seq<RetainedRegion>,
    basis: AnchorBasis,
    facts: Seq<LineFact>,
    fact: LineFact,
)
    requires
        are_founded(scene, regions, basis, facts),
        is_founded(scene, regions, basis, fact),
    ensures
        are_founded(scene, regions, basis, facts.push(fact)),
{
    reveal(are_founded);
}

/// The list may have grown by one replacement.
spec fn edited(earlier: Seq<LineFact>, later: Seq<LineFact>) -> bool {
    later == earlier || exists|fact: LineFact| fact is Edit && later == #[trigger] earlier.push(fact)
}

/// Replacements are founded anyway.
proof fn lemma_founded_edited(
    scene: PlanScene<'_>,
    regions: Seq<RetainedRegion>,
    basis: AnchorBasis,
    earlier: Seq<LineFact>,
    later: Seq<LineFact>,
)
    requires
        are_founded(scene, regions, basis, earlier),
        edited(earlier, later),
    ensures
        are_founded(scene, regions, basis, later),
{
    if later != earlier {
        let fact = choose|fact: LineFact| fact is Edit && later == #[trigger] earlier.push(fact);
        lemma_founded_push(scene, regions, basis, earlier, fact);
    }
}

/// Every fact of one list is in the other.
pub open spec fn lists_all(some: Seq<LineFact>, all: Seq<LineFact>) -> bool {
    forall|k: int| 0 <= k < some.len() ==> all.contains(#[trigger] some[k])
}

/// The terminator edit of a row pair.
pub open spec fn ending_fact(link: LineLink) -> LineFact {
    LineFact::TerminatorEdit { before: link.before, after: link.after }
}

/// The unchanged row pair that splits replacements.
pub open spec fn checkpoint_fact(link: LineLink) -> LineFact {
    LineFact::Context { before: link.before, after: link.after, strong: true }
}

/// Every terminator edit between the ranges is a fact.
pub open spec fn lists_endings(
    links: Seq<LineLink>,
    before: Span,
    after: Span,
    facts: Seq<LineFact>,
) -> bool {
    forall|k: int|
        0 <= k < links.len() && link_in(#[trigger] links[k], before, after) ==> facts.contains(
            ending_fact(links[k]),
        )
}

/// Every checkpoint between the ranges is a strong fact.
pub open spec fn lists_checkpoints(
    scene: PlanScene<'_>,
    before: Span,
    after: Span,
    facts: Seq<LineFact>,
) -> bool {
    forall|k: int|
        0 <= k < scene.graph.source.lines@.len() && link_in(
            #[trigger] scene.graph.source.lines@[k],
            before,
            after,
        ) && is_checkpoint(scene, scene.graph.source.lines@[k]) ==> facts.contains(
            checkpoint_fact(scene.graph.source.lines@[k]),
        )
}

/// The unchanged row pair is the first or the last of both ranges, whose owners differ: it is the
/// frame of the owner, and says nothing of what is inside.
pub open spec fn is_framed(
    basis: AnchorBasis,
    before: Span,
    after: Span,
    link: LineLink,
) -> bool {
    basis matches AnchorBasis::Syntax { same_owner } && !same_owner && ((link.before
        == before.start && link.after == after.start) || (link.before + 1 == before.end
        && link.after + 1 == after.end))
}

/// The unchanged row pair, which splits replacements where it anchors.
pub open spec fn row_fact(scene: PlanScene<'_>, basis: AnchorBasis, link: LineLink) -> LineFact {
    LineFact::Context {
        before: link.before,
        after: link.after,
        strong: anchors(scene, basis, link),
    }
}

/// Every unchanged row pair between the ranges of a gap is a fact, but for the frame.
#[verifier::opaque]
pub open spec fn lists_links(
    scene: PlanScene<'_>,
    gap_before: Span,
    gap_after: Span,
    before: Span,
    after: Span,
    basis: AnchorBasis,
    facts: Seq<LineFact>,
) -> bool {
    forall|k: int|
        0 <= k < scene.graph.source.lines@.len() && link_in(
            #[trigger] scene.graph.source.lines@[k],
            gap_before,
            gap_after,
        ) && !is_framed(basis, before, after, scene.graph.source.lines@[k]) ==> facts.contains(
            row_fact(scene, basis, scene.graph.source.lines@[k]),
        )
}

/// Facts behind the first ones are no frame.
pub open spec fn adds_no_frame(
    basis: AnchorBasis,
    before: Span,
    after: Span,
    earlier: Seq<LineFact>,
    later: Seq<LineFact>,
) -> bool {
    &&& earlier.is_prefix_of(later)
    &&& forall|k: int|
        earlier.len() <= k < later.len() ==> ((
        #[trigger] later[k]) matches LineFact::Context { before: old_row, after: new_row, strong }
            ==> !is_framed(basis, before, after, LineLink { before: old_row, after: new_row }))
}

/// Facts that were added before a replacement, and one more.
proof fn lemma_no_frame(
    basis: AnchorBasis,
    before: Span,
    after: Span,
    earlier: Seq<LineFact>,
    later: Seq<LineFact>,
    closed: Seq<LineFact>,
    fact: LineFact,
)
    requires
        adds_no_frame(basis, before, after, earlier, later),
        edited(later, closed),
        fact matches LineFact::Context { before: old_row, after: new_row, strong } ==> !is_framed(
            basis,
            before,
            after,
            LineLink { before: old_row, after: new_row },
        ),
    ensures
        adds_no_frame(basis, before, after, earlier, closed.push(fact)),
{
    let all = closed.push(fact);
    assert forall|k: int| earlier.len() <= k < all.len() implies ((
    #[trigger] all[k]) matches LineFact::Context { before: old_row, after: new_row, strong }
        ==> !is_framed(basis, before, after, LineLink { before: old_row, after: new_row })) by {
        if k < later.len() {
            assert(all[k] == later[k]);
        }
    }
    assert forall|k: int| 0 <= k < earlier.len() implies earlier[k] == #[trigger] all[k] by {
        assert(earlier[k] == later[k]);
        assert(later[k] == closed[k]);
    }
}

/// Append the facts of rows between two retained regions.
#[verifier::rlimit(60)]
#[verifier::spinoff_prover]
fn append_gap(
    scene: &PlanScene<'_>,
    run: &mut FactRun,
    gap_before: Span,
    gap_after: Span,
    bounds_before: Span,
    bounds_after: Span,
    basis: AnchorBasis,
    Ghost(start): Ghost<Corner>,
    Ghost(regions): Ghost<Seq<RetainedRegion>>,
)
    requires
        scene.wf(),
        old(run).ok(*scene, start),
        are_founded(*scene, regions, basis, old(run).facts@),
        old(run).before == gap_before.start,
        old(run).after == gap_after.start,
        gap_before.start <= gap_before.end <= scene.before_count(),
        gap_after.start <= gap_after.end <= scene.after_count(),
    ensures
        final(run).ok(*scene, start),
        final(run).before <= gap_before.end,
        final(run).after <= gap_after.end,
        lists_all(old(run).facts@, final(run).facts@),
        lists_endings(scene.graph.source.line_endings@, gap_before, gap_after, final(run).facts@),
        basis == AnchorBasis::Physical ==> lists_checkpoints(
            *scene,
            gap_before,
            gap_after,
            final(run).facts@,
        ),
        are_founded(*scene, regions, basis, final(run).facts@),
        lists_links(
            *scene,
            gap_before,
            gap_after,
            bounds_before,
            bounds_after,
            basis,
            final(run).facts@,
        ),
        adds_no_frame(basis, bounds_before, bounds_after, old(run).facts@, final(run).facts@),
{
    let ghost earlier = run.facts@;
    let exact = scene.graph.source.line_links_in(gap_before, gap_after);
    let endings = scene.graph.source.line_ending_edits_in(gap_before, gap_after);
    proof {
        scene.pair.before.source.lemma_line_count();
        scene.pair.after.source.lemma_line_count();
        lemma_selected(scene.graph.source.lines@, gap_before, gap_after);
        lemma_selected(scene.graph.source.line_endings@, gap_before, gap_after);
        lemma_selected_interleave(
            scene.graph.source.lines@,
            scene.graph.source.line_endings@,
            gap_before,
            gap_after,
        );
        assert forall|k: int| 0 <= k < exact@.len() implies link_fits(
            *scene.pair,
            #[trigger] exact@[k],
        ) && is_exact(*scene.pair, exact@[k]) by {
            assert(scene.graph.source.lines@.contains(exact@[k]));
        }
        assert forall|k: int| 0 <= k < endings@.len() implies link_fits(
            *scene.pair,
            #[trigger] endings@[k],
        ) && is_ending_edit(*scene.pair, endings@[k]) by {
            assert(scene.graph.source.line_endings@.contains(endings@[k]));
        }
    }
    let mut left: usize = 0;
    let mut right: usize = 0;
    while left < exact.len() || right < endings.len()
        invariant
            scene.wf(),
            run.ok(*scene, start),
            are_founded(*scene, regions, basis, run.facts@),
            forall|k: int|
                0 <= k < exact@.len() ==> scene.graph.source.lines@.contains(#[trigger] exact@[k]),
            forall|k: int|
                0 <= k < endings@.len() ==> scene.graph.source.line_endings@.contains(
                    #[trigger] endings@[k],
                ),
            left <= exact@.len(),
            right <= endings@.len(),
            rows_ascend(exact@),
            rows_ascend(endings@),
            links_interleave(exact@, endings@),
            gap_before.end <= scene.before_count() < usize::MAX,
            gap_after.end <= scene.after_count() < usize::MAX,
            run.before <= gap_before.end,
            run.after <= gap_after.end,
            forall|k: int|
                0 <= k < exact@.len() ==> link_fits(*scene.pair, #[trigger] exact@[k]) && is_exact(
                    *scene.pair,
                    exact@[k],
                ) && link_in(exact@[k], gap_before, gap_after),
            forall|k: int|
                0 <= k < endings@.len() ==> link_fits(*scene.pair, #[trigger] endings@[k])
                    && is_ending_edit(*scene.pair, endings@[k]) && link_in(
                    endings@[k],
                    gap_before,
                    gap_after,
                ),
            forall|k: int|
                left <= k < exact@.len() ==> run.before <= (#[trigger] exact@[k]).before
                    && run.after <= exact@[k].after,
            forall|k: int|
                right <= k < endings@.len() ==> run.before <= (#[trigger] endings@[k]).before
                    && run.after <= endings@[k].after,
            lists_all(earlier, run.facts@),
            forall|k: int|
                0 <= k < right ==> run.facts@.contains(ending_fact(#[trigger] endings@[k])),
            basis == AnchorBasis::Physical ==> forall|k: int|
                0 <= k < left && is_checkpoint(*scene, #[trigger] exact@[k])
                    ==> run.facts@.contains(checkpoint_fact(exact@[k])),
            forall|k: int|
                0 <= k < left && !is_framed(
                    basis,
                    bounds_before,
                    bounds_after,
                    #[trigger] exact@[k],
                ) ==> run.facts@.contains(row_fact(*scene, basis, exact@[k])),
            adds_no_frame(basis, bounds_before, bounds_after, earlier, run.facts@),
        decreases exact@.len() - left + endings@.len() - right,
    {
        let ghost listed = run.facts@;
        let take_exact = left < exact.len() && (right >= endings.len() || exact[left].before
            < endings[right].before);
        if take_exact {
            let link = exact[left];
            assert(link_in(exact@[left as int], gap_before, gap_after));
            let strong = match basis {
                AnchorBasis::Physical => line_link_is_display_checkpoint(scene, link),
                AnchorBasis::Syntax { .. } => rows_close_owner(scene, link),
            };
            let framed = match basis {
                AnchorBasis::Physical => false,
                AnchorBasis::Syntax { same_owner } => !same_owner && ((link.before
                    == bounds_before.start && link.after == bounds_after.start) || (link.before + 1
                    == bounds_before.end && link.after + 1 == bounds_after.end)),
            };
            if !framed {
                run.edit_until(scene, link.before, link.after, Ghost(start));
                let ghost closed = run.facts@;
                let fact = LineFact::Context { before: link.before, after: link.after, strong };
                run.push(scene, fact, Ghost(start));
                proof {
                    assert(scene.graph.source.lines@.contains(exact@[left as int]));
                    assert(link == LineLink { before: link.before, after: link.after });
                    lemma_founded_edited(*scene, regions, basis, listed, closed);
                    lemma_founded_push(*scene, regions, basis, closed, fact);
                    lemma_no_frame(
                        basis,
                        bounds_before,
                        bounds_after,
                        earlier,
                        listed,
                        closed,
                        fact,
                    );
                    assert(fact == row_fact(*scene, basis, exact@[left as int]));
                }
            }
            left += 1;
        } else {
            let link = endings[right];
            assert(link_in(endings@[right as int], gap_before, gap_after));
            run.edit_until(scene, link.before, link.after, Ghost(start));
            let ghost closed = run.facts@;
            let fact = LineFact::TerminatorEdit { before: link.before, after: link.after };
            run.push(scene, fact, Ghost(start));
            proof {
                assert(scene.graph.source.line_endings@.contains(endings@[right as int]));
                assert(link == LineLink { before: link.before, after: link.after });
                lemma_founded_edited(*scene, regions, basis, listed, closed);
                lemma_founded_push(*scene, regions, basis, closed, fact);
                lemma_no_frame(
                    basis,
                    bounds_before,
                    bounds_after,
                    earlier,
                    listed,
                    closed,
                    fact,
                );
            }
            right += 1;
        }
        proof {
            lemma_lists_all(earlier, listed, run.facts@);
            assert forall|k: int| 0 <= k < right implies run.facts@.contains(
                ending_fact(#[trigger] endings@[k]),
            ) by {}
        }
    }
    proof {
        let pred = |link: LineLink| link_in(link, gap_before, gap_after);
        let all_endings = scene.graph.source.line_endings@;
        let all_lines = scene.graph.source.lines@;
        all_endings.filter_lemma(pred);
        all_lines.filter_lemma(pred);
        assert forall|k: int|
            0 <= k < all_endings.len() && link_in(
                #[trigger] all_endings[k],
                gap_before,
                gap_after,
            ) implies run.facts@.contains(ending_fact(all_endings[k])) by {
            assert(pred(all_endings[k]));
            assert(endings@.contains(all_endings[k]));
        }
        reveal(lists_links);
        assert forall|k: int|
            0 <= k < all_lines.len() && link_in(
                #[trigger] all_lines[k],
                gap_before,
                gap_after,
            ) && !is_framed(
                basis,
                bounds_before,
                bounds_after,
                all_lines[k],
            ) implies run.facts@.contains(row_fact(*scene, basis, all_lines[k])) by {
            assert(pred(all_lines[k]));
            assert(exact@.contains(all_lines[k]));
            let at = choose|at: int| 0 <= at < exact@.len() && exact@[at] == all_lines[k];
            assert(run.facts@.contains(row_fact(*scene, basis, exact@[at])));
        }
        if basis == AnchorBasis::Physical {
            assert forall|k: int|
                0 <= k < all_lines.len() && link_in(
                    #[trigger] all_lines[k],
                    gap_before,
                    gap_after,
                ) && is_checkpoint(*scene, all_lines[k]) implies run.facts@.contains(
                checkpoint_fact(all_lines[k]),
            ) by {
                assert(pred(all_lines[k]));
                assert(exact@.contains(all_lines[k]));
            }
        }
    }
}

/// Selected links keep their order, come from the list, and lie in the ranges.
pub proof fn lemma_selected(links: Seq<LineLink>, before: Span, after: Span)
    requires
        rows_ascend(links),
    ensures
        rows_ascend(links_in(links, before, after)),
        forall|k: int|
            0 <= k < links_in(links, before, after).len() ==> links.contains(
                #[trigger] links_in(links, before, after)[k],
            ) && link_in(links_in(links, before, after)[k], before, after),
    decreases links.len(),
{
    reveal(Seq::filter);
    let selected = links_in(links, before, after);
    if links.len() > 0 {
        let rest = links.drop_last();
        let last = links.last();
        assert(rows_ascend(rest)) by {
            assert forall|i: int, j: int| 0 <= i < j < rest.len() implies (
            #[trigger] rest[i]).before < (#[trigger] rest[j]).before && rest[i].after
                < rest[j].after by {
                assert(rest[i] == links[i] && rest[j] == links[j]);
            }
        }
        lemma_selected(rest, before, after);
        let kept = links_in(rest, before, after);
        assert(links[links.len() - 1] == last);
        assert forall|k: int| 0 <= k < kept.len() implies links.contains(#[trigger] kept[k])
            && kept[k].before < last.before && kept[k].after < last.after by {
            assert(rest.contains(kept[k]));
            let i = choose|i: int| 0 <= i < rest.len() && rest[i] == kept[k];
            assert(links[i] == kept[k]);
        }
        if link_in(last, before, after) {
            assert(selected == kept.push(last));
            assert forall|k: int| 0 <= k < selected.len() implies links.contains(
                #[trigger] selected[k],
            ) && link_in(selected[k], before, after) by {
                if k < kept.len() {
                    assert(selected[k] == kept[k]);
                }
            }
            assert forall|i: int, j: int| 0 <= i < j < selected.len() implies (
            #[trigger] selected[i]).before < (#[trigger] selected[j]).before && selected[i].after
                < selected[j].after by {
                assert(selected[i] == kept[i]);
                if j < kept.len() {
                    assert(selected[j] == kept[j]);
                }
            }
        } else {
            assert(selected == kept);
        }
    }
}

/// Selections of interleaving lists interleave.
proof fn lemma_selected_interleave(
    left: Seq<LineLink>,
    right: Seq<LineLink>,
    before: Span,
    after: Span,
)
    requires
        rows_ascend(left),
        rows_ascend(right),
        links_interleave(left, right),
    ensures
        links_interleave(links_in(left, before, after), links_in(right, before, after)),
{
    lemma_selected(left, before, after);
    lemma_selected(right, before, after);
    let first = links_in(left, before, after);
    let second = links_in(right, before, after);
    assert forall|i: int, j: int| 0 <= i < first.len() && 0 <= j < second.len() implies ((
    #[trigger] first[i]).before < (#[trigger] second[j]).before && first[i].after
        < second[j].after) || (second[j].before < first[i].before && second[j].after
        < first[i].after) by {
        assert(left.contains(first[i]));
        assert(right.contains(second[j]));
        let k = choose|k: int| 0 <= k < left.len() && left[k] == first[i];
        let l = choose|l: int| 0 <= l < right.len() && right[l] == second[j];
        assert(left[k].before < right[l].before || right[l].before < left[k].before);
    }
}

/// A retained region shown as reflow.
pub open spec fn reflow_fact(region: RetainedRegion) -> LineFact {
    LineFact::Reflow { before: region.before, after: region.after }
}

/// Lists only grow.
proof fn lemma_lists_all(first: Seq<LineFact>, second: Seq<LineFact>, third: Seq<LineFact>)
    requires
        lists_all(first, second),
        lists_all(second, third),
    ensures
        lists_all(first, third),
        forall|fact: LineFact| second.contains(fact) ==> #[trigger] third.contains(fact),
{
    assert forall|fact: LineFact| second.contains(fact) implies #[trigger] third.contains(fact) by {
        let k = choose|k: int| 0 <= k < second.len() && second[k] == fact;
        assert(third.contains(second[k]));
    }
    assert forall|k: int| 0 <= k < first.len() implies third.contains(#[trigger] first[k]) by {
        assert(second.contains(first[k]));
    }
}

/// Append the facts of one retained region.
fn append_retained(
    scene: &PlanScene<'_>,
    run: &mut FactRun,
    region: &RetainedRegion,
    Ghost(bounds): Ghost<(Span, Span)>,
    Ghost(start): Ghost<Corner>,
    Ghost(regions): Ghost<Seq<RetainedRegion>>,
    Ghost(basis): Ghost<AnchorBasis>,
)
    requires
        scene.wf(),
        regions.contains(*region),
        are_founded(*scene, regions, basis, old(run).facts@),
        old(run).ok(*scene, start),
        old(run).before == region.before.start,
        old(run).after == region.after.start,
        region_ok(*scene, *region, bounds.0, bounds.1),
        bounds.0.end <= scene.before_count(),
        bounds.1.end <= scene.after_count(),
    ensures
        final(run).ok(*scene, start),
        final(run).before == region.before.end,
        final(run).after == region.after.end,
        lists_all(old(run).facts@, final(run).facts@),
        region.retention == Retention::Reflow ==> final(run).facts@.contains(
            reflow_fact(*region),
        ),
        are_founded(*scene, regions, basis, final(run).facts@),
{
    let ghost earlier = run.facts@;
    let ghost at = choose|at: int| 0 <= at < regions.len() && regions[at] == *region;
    match region.retention {
        Retention::Reflow => {
            let fact = LineFact::Reflow { before: region.before, after: region.after };
            run.push(scene, fact, Ghost(start));
            proof {
                assert(regions[at].retention == Retention::Reflow);
                lemma_founded_push(*scene, regions, basis, earlier, fact);
            }
        },
        Retention::Exact => {
            proof {
                scene.pair.before.source.lemma_line_count();
                scene.pair.after.source.lemma_line_count();
            }
            let mut offset: usize = 0;
            while offset < region.before.len()
                invariant
                    scene.wf(),
                    run.ok(*scene, start),
                    are_founded(*scene, regions, basis, run.facts@),
                    0 <= at < regions.len(),
                    regions[at] == *region,
                    region_ok(*scene, *region, bounds.0, bounds.1),
                    region.retention == Retention::Exact,
                    bounds.0.end <= scene.before_count() < usize::MAX,
                    bounds.1.end <= scene.after_count() < usize::MAX,
                    offset <= region.before.end - region.before.start,
                    run.before == region.before.start + offset,
                    run.after == region.after.start + offset,
                    lists_all(earlier, run.facts@),
                decreases region.before.end - region.before.start - offset,
            {
                let before = region.before.start + offset;
                let after = region.after.start + offset;
                proof {
                    assert(rows_equal(*scene.pair, region.before, region.after));
                    assert(row_pair_equal(
                        *scene.pair,
                        region.before.start + offset,
                        region.after.start + offset,
                    ));
                    scene.pair.before.source.lemma_equal_lines(
                        before as int,
                        &scene.pair.after.source,
                        after as int,
                    );
                }
                let ghost listed = run.facts@;
                run.push(scene, LineFact::Context { before, after, strong: true }, Ghost(start));
                proof {
                    lemma_lists_all(earlier, listed, run.facts@);
                    assert(regions[at].retention == Retention::Exact && regions[at].before.has(
                        before as int,
                    ));
                    assert(in_exact_region(regions, before, after));
                    lemma_founded_push(
                        *scene,
                        regions,
                        basis,
                        listed,
                        LineFact::Context { before, after, strong: true },
                    );
                }
                offset += 1;
            }
        },
    }
}

/// The link precedes or follows every region in both revisions.
pub open spec fn outside_regions(regions: Seq<RetainedRegion>, link: LineLink) -> bool {
    forall|k: int|
        0 <= k < regions.len() ==> link_precedes(link, #[trigger] regions[k]) || link_follows(
            link,
            regions[k],
        )
}

pub open spec fn link_precedes(link: LineLink, region: RetainedRegion) -> bool {
    link.before < region.before.start && link.after < region.after.start
}

pub open spec fn link_follows(link: LineLink, region: RetainedRegion) -> bool {
    region.before.end <= link.before && region.after.end <= link.after
}

/// Facts that separate replacements are never lost: terminator edits and, where physical rows
/// anchor, rows that carry content, as far as both lie outside retained structure; and retained
/// structure whose layout changed.
pub open spec fn keeps_checkpoints(
    scene: PlanScene<'_>,
    regions: Seq<RetainedRegion>,
    before: Span,
    after: Span,
    basis: AnchorBasis,
    facts: Seq<LineFact>,
) -> bool {
    &&& forall|k: int|
        0 <= k < scene.graph.source.line_endings@.len() && link_in(
            #[trigger] scene.graph.source.line_endings@[k],
            before,
            after,
        ) && outside_regions(regions, scene.graph.source.line_endings@[k]) ==> facts.contains(
            ending_fact(scene.graph.source.line_endings@[k]),
        )
    &&& basis == AnchorBasis::Physical ==> forall|k: int|
        0 <= k < scene.graph.source.lines@.len() && link_in(
            #[trigger] scene.graph.source.lines@[k],
            before,
            after,
        ) && outside_regions(regions, scene.graph.source.lines@[k]) && is_checkpoint(
            scene,
            scene.graph.source.lines@[k],
        ) ==> facts.contains(checkpoint_fact(scene.graph.source.lines@[k]))
    &&& forall|k: int|
        0 <= k < regions.len() && (#[trigger] regions[k]).retention == Retention::Reflow
            ==> facts.contains(reflow_fact(regions[k]))
}

/// Every unchanged row pair outside retained structure, but for the frame, is a fact, as far as it
/// comes before the last of the first regions.
#[verifier::opaque]
pub open spec fn lists_links_to(
    scene: PlanScene<'_>,
    regions: Seq<RetainedRegion>,
    before: Span,
    after: Span,
    basis: AnchorBasis,
    facts: Seq<LineFact>,
    index: int,
) -> bool {
    index > 0 ==> forall|k: int|
        0 <= k < scene.graph.source.lines@.len() && link_in(
            #[trigger] scene.graph.source.lines@[k],
            before,
            after,
        ) && outside_regions(regions, scene.graph.source.lines@[k]) && !is_framed(
            basis,
            before,
            after,
            scene.graph.source.lines@[k],
        ) && link_precedes(scene.graph.source.lines@[k], regions[index - 1]) ==> facts.contains(
            row_fact(scene, basis, scene.graph.source.lines@[k]),
        )
}

/// Facts before weak rows are taken in by replacements: every unchanged row pair outside retained
/// structure is one of them, but for the frame.
pub open spec fn are_plain_facts(
    scene: PlanScene<'_>,
    regions: Seq<RetainedRegion>,
    before: Span,
    after: Span,
    basis: AnchorBasis,
    facts: Seq<LineFact>,
) -> bool {
    &&& are_founded(scene, regions, basis, facts)
    &&& forall|k: int|
        0 <= k < scene.graph.source.lines@.len() && link_in(
            #[trigger] scene.graph.source.lines@[k],
            before,
            after,
        ) && outside_regions(regions, scene.graph.source.lines@[k]) && !is_framed(
            basis,
            before,
            after,
            scene.graph.source.lines@[k],
        ) ==> facts.contains(row_fact(scene, basis, scene.graph.source.lines@[k]))
}

/// The facts come from plain ones.
pub open spec fn joins_plain_facts(
    scene: PlanScene<'_>,
    regions: Seq<RetainedRegion>,
    before: Span,
    after: Span,
    basis: AnchorBasis,
    facts: Seq<LineFact>,
) -> bool {
    exists|plain: Seq<LineFact>| #[trigger]
        are_plain_facts(scene, regions, before, after, basis, plain) && comes_from(plain, facts)
}

/// Links up to the next region lie before the previous one or in the gap.
proof fn lemma_links_more(
    scene: PlanScene<'_>,
    regions: Seq<RetainedRegion>,
    before: Span,
    after: Span,
    basis: AnchorBasis,
    listed: Seq<LineFact>,
    filled: Seq<LineFact>,
    grown: Seq<LineFact>,
    index: int,
    gap_before: Span,
    gap_after: Span,
)
    requires
        0 <= index < regions.len(),
        lists_links_to(scene, regions, before, after, basis, listed, index),
        lists_links(scene, gap_before, gap_after, before, after, basis, filled),
        forall|fact: LineFact| listed.contains(fact) ==> #[trigger] grown.contains(fact),
        forall|fact: LineFact| filled.contains(fact) ==> #[trigger] grown.contains(fact),
        gap_before.end == regions[index].before.start,
        gap_after.end == regions[index].after.start,
        index == 0 ==> gap_before.start == before.start && gap_after.start == after.start,
        index > 0 ==> gap_before.start == regions[index - 1].before.end && gap_after.start
            == regions[index - 1].after.end,
    ensures
        lists_links_to(scene, regions, before, after, basis, grown, index + 1),
{
    reveal(lists_links_to);
    reveal(lists_links);
    let lines = scene.graph.source.lines@;
    assert forall|k: int|
        0 <= k < lines.len() && link_in(#[trigger] lines[k], before, after) && outside_regions(
            regions,
            lines[k],
        ) && !is_framed(basis, before, after, lines[k]) && link_precedes(
            lines[k],
            regions[index],
        ) implies grown.contains(row_fact(scene, basis, lines[k])) by {
        if index > 0 {
            assert(link_precedes(lines[k], regions[index - 1]) || link_follows(
                lines[k],
                regions[index - 1],
            ));
        }
        if index > 0 && link_precedes(lines[k], regions[index - 1]) {
            assert(listed.contains(row_fact(scene, basis, lines[k])));
        } else {
            assert(link_in(lines[k], gap_before, gap_after));
            assert(filled.contains(row_fact(scene, basis, lines[k])));
        }
    }
}

/// Behind the last region only the links of its gap remain.
proof fn lemma_links_last(
    scene: PlanScene<'_>,
    regions: Seq<RetainedRegion>,
    before: Span,
    after: Span,
    basis: AnchorBasis,
    listed: Seq<LineFact>,
    filled: Seq<LineFact>,
    grown: Seq<LineFact>,
    gap_before: Span,
    gap_after: Span,
)
    requires
        are_founded(scene, regions, basis, grown),
        lists_links_to(scene, regions, before, after, basis, listed, regions.len() as int),
        lists_links(scene, gap_before, gap_after, before, after, basis, filled),
        forall|fact: LineFact| listed.contains(fact) ==> #[trigger] grown.contains(fact),
        forall|fact: LineFact| filled.contains(fact) ==> #[trigger] grown.contains(fact),
        gap_before.end == before.end,
        gap_after.end == after.end,
        regions.len() == 0 ==> gap_before.start == before.start && gap_after.start == after.start,
        regions.len() > 0 ==> gap_before.start == regions.last().before.end && gap_after.start
            == regions.last().after.end,
    ensures
        are_plain_facts(scene, regions, before, after, basis, grown),
{
    reveal(lists_links_to);
    reveal(lists_links);
    let lines = scene.graph.source.lines@;
    let count = regions.len() as int;
    assert forall|k: int|
        0 <= k < lines.len() && link_in(#[trigger] lines[k], before, after) && outside_regions(
            regions,
            lines[k],
        ) && !is_framed(basis, before, after, lines[k]) implies grown.contains(
        row_fact(scene, basis, lines[k]),
    ) by {
        if count > 0 && link_precedes(lines[k], regions[count - 1]) {
            assert(listed.contains(row_fact(scene, basis, lines[k])));
        } else {
            if count > 0 {
                assert(link_follows(lines[k], regions[count - 1]));
            }
            assert(link_in(lines[k], gap_before, gap_after));
            assert(filled.contains(row_fact(scene, basis, lines[k])));
        }
    }
}

/// Facts of all rows of a region, in order.
#[verifier::rlimit(40)]
pub fn line_facts(
    scene: &PlanScene<'_>,
    before: Span,
    after: Span,
    retained: &Vec<RetainedRegion>,
    basis: AnchorBasis,
) -> (facts: Vec<LineFact>)
    requires
        scene.wf(),
        before.start <= before.end <= scene.before_count(),
        after.start <= after.end <= scene.after_count(),
        regions_in_order(retained@),
        forall|k: int|
            0 <= k < retained@.len() ==> region_ok(*scene, #[trigger] retained@[k], before, after),
    ensures
        facts_ok(*scene, facts@),
        tiles(
            facts@,
            Corner { before: before.start as int, after: after.start as int },
            Corner { before: before.end as int, after: after.end as int },
        ),
        keeps_checkpoints(*scene, retained@, before, after, basis, facts@),
        are_settled(facts@),
        are_founded(*scene, retained@, basis, facts@),
        joins_plain_facts(*scene, retained@, before, after, basis, facts@),
{
    let ghost start = Corner { before: before.start as int, after: after.start as int };
    let mut run = FactRun { facts: Vec::new(), before: before.start, after: after.start };
    assert(tiles(run.facts@, start, start));
    assert(are_founded(*scene, retained@, basis, run.facts@)) by {
        reveal(are_founded);
    }
    assert(lists_links_to(*scene, retained@, before, after, basis, run.facts@, 0)) by {
        reveal(lists_links_to);
    }
    let mut index: usize = 0;
    while index < retained.len()
        invariant
            scene.wf(),
            run.ok(*scene, start),
            before.start <= before.end <= scene.before_count(),
            after.start <= after.end <= scene.after_count(),
            regions_in_order(retained@),
            forall|k: int|
                0 <= k < retained@.len() ==> region_ok(
                    *scene,
                    #[trigger] retained@[k],
                    before,
                    after,
                ),
            index <= retained@.len(),
            run.before <= before.end,
            run.after <= after.end,
            forall|k: int|
                index <= k < retained@.len() ==> run.before <= (
                #[trigger] retained@[k]).before.start && run.after <= retained@[k].after.start,
            index == 0 ==> run.before == before.start && run.after == after.start,
            index > 0 ==> run.before == retained@[index - 1].before.end && run.after
                == retained@[index - 1].after.end,
            keeps_part(*scene, retained@, before, after, basis, run.facts@, index as int),
            lists_links_to(*scene, retained@, before, after, basis, run.facts@, index as int),
            are_founded(*scene, retained@, basis, run.facts@),
        decreases retained@.len() - index,
    {
        let ghost listed = run.facts@;
        let region = retained[index];
        assert(region_ok(*scene, retained@[index as int], before, after));
        let gap_before = Span { start: run.before, end: region.before.start };
        let gap_after = Span { start: run.after, end: region.after.start };
        append_gap(
            scene,
            &mut run,
            gap_before,
            gap_after,
            before,
            after,
            basis,
            Ghost(start),
            Ghost(retained@),
        );
        let ghost filled = run.facts@;
        run.edit_until(scene, region.before.start, region.after.start, Ghost(start));
        let ghost closed = run.facts@;
        proof {
            lemma_founded_edited(*scene, retained@, basis, filled, closed);
            assert(retained@.contains(retained@[index as int]));
        }
        append_retained(
            scene,
            &mut run,
            &region,
            Ghost((before, after)),
            Ghost(start),
            Ghost(retained@),
            Ghost(basis),
        );
        proof {
            lemma_lists_all(listed, filled, closed);
            lemma_lists_all(listed, closed, run.facts@);
            lemma_lists_all(filled, closed, run.facts@);
            lemma_lists_all(listed, listed, run.facts@);
            lemma_keeps_more(
                *scene,
                retained@,
                before,
                after,
                basis,
                listed,
                filled,
                run.facts@,
                index as int,
                gap_before,
                gap_after,
            );
            lemma_links_more(
                *scene,
                retained@,
                before,
                after,
                basis,
                listed,
                filled,
                run.facts@,
                index as int,
                gap_before,
                gap_after,
            );
        }
        index += 1;
    }
    let ghost listed = run.facts@;
    let gap_before = Span { start: run.before, end: before.end };
    let gap_after = Span { start: run.after, end: after.end };
    append_gap(
        scene,
        &mut run,
        gap_before,
        gap_after,
        before,
        after,
        basis,
        Ghost(start),
        Ghost(retained@),
    );
    let ghost filled = run.facts@;
    run.edit_until(scene, before.end, after.end, Ghost(start));
    proof {
        lemma_founded_edited(*scene, retained@, basis, filled, run.facts@);
        lemma_lists_all(listed, filled, run.facts@);
        lemma_lists_all(listed, listed, run.facts@);
        lemma_keeps_last(
            *scene,
            retained@,
            before,
            after,
            basis,
            listed,
            filled,
            run.facts@,
            gap_before,
            gap_after,
        );
        lemma_links_last(
            *scene,
            retained@,
            before,
            after,
            basis,
            listed,
            filled,
            run.facts@,
            gap_before,
            gap_after,
        );
    }
    let FactRun { facts, .. } = run;
    let ghost whole = facts@;
    let coalesced = coalesce_weak_line_context(
        scene,
        facts,
        Ghost(start),
        Ghost(Corner { before: before.end as int, after: after.end as int }),
    );
    proof {
        assert forall|fact: LineFact| whole.contains(fact) && is_strong(
            fact,
        ) implies #[trigger] coalesced@.contains(fact) by {
            let k = choose|k: int| 0 <= k < whole.len() && whole[k] == fact;
            assert(is_strong(whole[k]));
        }
        lemma_founded_coalesced(*scene, retained@, basis, whole, coalesced@);
        assert(are_plain_facts(*scene, retained@, before, after, basis, whole));
    }
    coalesced
}

/// What comes from founded facts is founded.
proof fn lemma_founded_coalesced(
    scene: PlanScene<'_>,
    regions: Seq<RetainedRegion>,
    basis: AnchorBasis,
    facts: Seq<LineFact>,
    coalesced: Seq<LineFact>,
)
    requires
        are_founded(scene, regions, basis, facts),
        comes_from(facts, coalesced),
    ensures
        are_founded(scene, regions, basis, coalesced),
{
    reveal(are_founded);
    assert forall|k: int| 0 <= k < coalesced.len() implies is_founded(
        scene,
        regions,
        basis,
        #[trigger] coalesced[k],
    ) by {
        if !(coalesced[k] is Edit) {
            let i = choose|i: int| 0 <= i < facts.len() && facts[i] == coalesced[k];
            assert(is_founded(scene, regions, basis, facts[i]));
        }
    }
}

/// The links before the region with the given index, and the regions before it, are listed.
spec fn keeps_part(
    scene: PlanScene<'_>,
    regions: Seq<RetainedRegion>,
    before: Span,
    after: Span,
    basis: AnchorBasis,
    facts: Seq<LineFact>,
    index: int,
) -> bool {
    &&& index > 0 ==> forall|k: int|
        0 <= k < scene.graph.source.line_endings@.len() && link_in(
            #[trigger] scene.graph.source.line_endings@[k],
            before,
            after,
        ) && outside_regions(regions, scene.graph.source.line_endings@[k]) && link_precedes(
            scene.graph.source.line_endings@[k],
            regions[index - 1],
        ) ==> facts.contains(ending_fact(scene.graph.source.line_endings@[k]))
    &&& index > 0 && basis == AnchorBasis::Physical ==> forall|k: int|
        0 <= k < scene.graph.source.lines@.len() && link_in(
            #[trigger] scene.graph.source.lines@[k],
            before,
            after,
        ) && outside_regions(regions, scene.graph.source.lines@[k]) && is_checkpoint(
            scene,
            scene.graph.source.lines@[k],
        ) && link_precedes(scene.graph.source.lines@[k], regions[index - 1]) ==> facts.contains(
            checkpoint_fact(scene.graph.source.lines@[k]),
        )
    &&& forall|k: int|
        0 <= k < index && (#[trigger] regions[k]).retention == Retention::Reflow ==> facts.contains(
            reflow_fact(regions[k]),
        )
}

/// A link that precedes the next region lies before the previous one or in the gap.
proof fn lemma_keeps_more(
    scene: PlanScene<'_>,
    regions: Seq<RetainedRegion>,
    before: Span,
    after: Span,
    basis: AnchorBasis,
    listed: Seq<LineFact>,
    filled: Seq<LineFact>,
    grown: Seq<LineFact>,
    index: int,
    gap_before: Span,
    gap_after: Span,
)
    requires
        0 <= index < regions.len(),
        keeps_part(scene, regions, before, after, basis, listed, index),
        lists_endings(scene.graph.source.line_endings@, gap_before, gap_after, filled),
        basis == AnchorBasis::Physical ==> lists_checkpoints(scene, gap_before, gap_after, filled),
        forall|fact: LineFact| listed.contains(fact) ==> #[trigger] grown.contains(fact),
        forall|fact: LineFact| filled.contains(fact) ==> #[trigger] grown.contains(fact),
        regions[index].retention == Retention::Reflow ==> grown.contains(
            reflow_fact(regions[index]),
        ),
        gap_before.end == regions[index].before.start,
        gap_after.end == regions[index].after.start,
        index == 0 ==> gap_before.start == before.start && gap_after.start == after.start,
        index > 0 ==> gap_before.start == regions[index - 1].before.end && gap_after.start
            == regions[index - 1].after.end,
    ensures
        keeps_part(scene, regions, before, after, basis, grown, index + 1),
{
    let endings = scene.graph.source.line_endings@;
    let lines = scene.graph.source.lines@;
    assert forall|k: int|
        0 <= k < endings.len() && link_in(#[trigger] endings[k], before, after) && outside_regions(
            regions,
            endings[k],
        ) && link_precedes(endings[k], regions[index]) implies grown.contains(
        ending_fact(endings[k]),
    ) by {
        if index > 0 {
            assert(link_precedes(endings[k], regions[index - 1]) || link_follows(
                endings[k],
                regions[index - 1],
            ));
        }
        if index > 0 && link_precedes(endings[k], regions[index - 1]) {
            assert(listed.contains(ending_fact(endings[k])));
        } else {
            assert(link_in(endings[k], gap_before, gap_after));
            assert(filled.contains(ending_fact(endings[k])));
        }
    }
    if basis == AnchorBasis::Physical {
        assert forall|k: int|
            0 <= k < lines.len() && link_in(#[trigger] lines[k], before, after) && outside_regions(
                regions,
                lines[k],
            ) && is_checkpoint(scene, lines[k]) && link_precedes(
                lines[k],
                regions[index],
            ) implies grown.contains(checkpoint_fact(lines[k])) by {
            if index > 0 {
                assert(link_precedes(lines[k], regions[index - 1]) || link_follows(
                    lines[k],
                    regions[index - 1],
                ));
            }
            if index > 0 && link_precedes(lines[k], regions[index - 1]) {
                assert(listed.contains(checkpoint_fact(lines[k])));
            } else {
                assert(link_in(lines[k], gap_before, gap_after));
                assert(filled.contains(checkpoint_fact(lines[k])));
            }
        }
    }
    assert forall|k: int|
        0 <= k < index + 1 && (#[trigger] regions[k]).retention
            == Retention::Reflow implies grown.contains(reflow_fact(regions[k])) by {
        if k < index {
            assert(listed.contains(reflow_fact(regions[k])));
        }
    }
}

/// Behind the last region only its gap remains.
proof fn lemma_keeps_last(
    scene: PlanScene<'_>,
    regions: Seq<RetainedRegion>,
    before: Span,
    after: Span,
    basis: AnchorBasis,
    listed: Seq<LineFact>,
    filled: Seq<LineFact>,
    grown: Seq<LineFact>,
    gap_before: Span,
    gap_after: Span,
)
    requires
        keeps_part(scene, regions, before, after, basis, listed, regions.len() as int),
        lists_endings(scene.graph.source.line_endings@, gap_before, gap_after, filled),
        basis == AnchorBasis::Physical ==> lists_checkpoints(scene, gap_before, gap_after, filled),
        forall|fact: LineFact| listed.contains(fact) ==> #[trigger] grown.contains(fact),
        forall|fact: LineFact| filled.contains(fact) ==> #[trigger] grown.contains(fact),
        gap_before.end == before.end,
        gap_after.end == after.end,
        regions.len() == 0 ==> gap_before.start == before.start && gap_after.start == after.start,
        regions.len() > 0 ==> gap_before.start == regions.last().before.end && gap_after.start
            == regions.last().after.end,
    ensures
        keeps_checkpoints(scene, regions, before, after, basis, grown),
{
    let endings = scene.graph.source.line_endings@;
    let lines = scene.graph.source.lines@;
    let count = regions.len() as int;
    assert forall|k: int|
        0 <= k < endings.len() && link_in(#[trigger] endings[k], before, after) && outside_regions(
            regions,
            endings[k],
        ) implies grown.contains(ending_fact(endings[k])) by {
        if count > 0 && link_precedes(endings[k], regions[count - 1]) {
            assert(listed.contains(ending_fact(endings[k])));
        } else {
            if count > 0 {
                assert(link_follows(endings[k], regions[count - 1]));
            }
            assert(link_in(endings[k], gap_before, gap_after));
            assert(filled.contains(ending_fact(endings[k])));
        }
    }
    if basis == AnchorBasis::Physical {
        assert forall|k: int|
            0 <= k < lines.len() && link_in(#[trigger] lines[k], before, after) && outside_regions(
                regions,
                lines[k],
            ) && is_checkpoint(scene, lines[k]) implies grown.contains(
            checkpoint_fact(lines[k]),
        ) by {
            if count > 0 && link_precedes(lines[k], regions[count - 1]) {
                assert(listed.contains(checkpoint_fact(lines[k])));
            } else {
                if count > 0 {
                    assert(link_follows(lines[k], regions[count - 1]));
                }
                assert(link_in(lines[k], gap_before, gap_after));
                assert(filled.contains(checkpoint_fact(lines[k])));
            }
        }
    }
    assert forall|k: int|
        0 <= k < regions.len() && (#[trigger] regions[k]).retention
            == Retention::Reflow implies grown.contains(reflow_fact(regions[k])) by {
        assert(listed.contains(reflow_fact(regions[k])));
    }
}

/// The fact holds its own against neighboring replacements.
pub open spec fn is_strong(fact: LineFact) -> bool {
    match fact {
        LineFact::Context { before, after, strong } => strong,
        LineFact::Edit { before, after } => false,
        _ => true,
    }
}

/// An unchanged row that a surrounding replacement may claim.
pub open spec fn is_weak(fact: LineFact) -> bool {
    !is_strong(fact) && !(fact is Edit)
}

/// Rows that two halos and one more row can show.
pub open spec fn halos_meet(rows: int) -> bool {
    rows <= 2 * CONTEXT_HALO_RADIUS + 1
}

/// Only weak rows lie between two positions.
pub open spec fn weak_between(facts: Seq<LineFact>, left: int, right: int) -> bool {
    forall|k: int| left < k < right ==> is_weak(#[trigger] facts[k])
}

/// No two replacements are parted by weak rows alone that two halos could show: a replacement has
/// taken such rows in.
pub open spec fn are_settled(facts: Seq<LineFact>) -> bool {
    forall|i: int, j: int|
        0 <= i < j < facts.len() && (#[trigger] facts[i]) is Edit && (#[trigger] facts[j]) is Edit
            && weak_between(facts, i, j) ==> !halos_meet(j - i - 1)
}

/// Some fact of the range is a replacement.
pub open spec fn has_edit(facts: Seq<LineFact>, from: int, to: int) -> bool {
    exists|k: int| from <= k < to && (#[trigger] facts[k]) is Edit
}

/// Only replacements and weak rows lie from one fact to the other, and no eight of them in a row
/// are without a replacement.
#[verifier::opaque]
pub open spec fn joins_closely(facts: Seq<LineFact>, first: int, last: int) -> bool {
    &&& forall|k: int|
        first <= k <= last ==> (#[trigger] facts[k]) is Edit || is_weak(facts[k])
    &&& forall|from: int, to: int|
        first <= from && to == from + 8 && to <= last + 1 ==> #[trigger] has_edit(facts, from, to)
}

/// The replacement starts where some replacement of the list starts, and ends where one ends that
/// lies close behind it.
pub open spec fn joins_edits(facts: Seq<LineFact>, edit: LineFact) -> bool {
    exists|i: int, j: int|
        0 <= i <= j < facts.len() && (#[trigger] facts[i]) is Edit && (#[trigger] facts[j]) is Edit
            && start_of(facts[i]) == start_of(edit) && end_of(facts[j]) == end_of(edit)
            && joins_closely(facts, i, j)
}

/// Whether facts lie close together does not depend on those behind them.
proof fn lemma_closely_among(
    facts: Seq<LineFact>,
    others: Seq<LineFact>,
    first: int,
    last: int,
)
    requires
        0 <= first <= last < facts.len(),
        last < others.len(),
        forall|k: int| first <= k <= last ==> (#[trigger] facts[k]) == others[k],
        joins_closely(facts, first, last),
    ensures
        joins_closely(others, first, last),
{
    reveal(joins_closely);
    assert forall|k: int| first <= k <= last implies (#[trigger] others[k]) is Edit || is_weak(
        others[k],
    ) by {
        assert(facts[k] == others[k]);
    }
    assert forall|from: int, to: int|
        first <= from && to == from + 8 && to <= last + 1 implies #[trigger] has_edit(
        others,
        from,
        to,
    ) by {
        assert(has_edit(facts, from, to));
        let k = choose|k: int| from <= k < to && (#[trigger] facts[k]) is Edit;
        assert(others[k] is Edit);
    }
}

/// A replacement alone.
proof fn lemma_closely_alone(facts: Seq<LineFact>, at: int)
    requires
        0 <= at < facts.len(),
        facts[at] is Edit,
    ensures
        joins_closely(facts, at, at),
{
    reveal(joins_closely);
}

/// One more replacement behind no more than two halos and one row of weak facts.
proof fn lemma_closely_next(facts: Seq<LineFact>, first: int, last: int, next: int)
    requires
        0 <= first <= last < next < facts.len(),
        joins_closely(facts, first, last),
        facts[last] is Edit,
        facts[next] is Edit,
        forall|k: int| last < k < next ==> is_weak(#[trigger] facts[k]),
        next - last - 1 <= 7,
    ensures
        joins_closely(facts, first, next),
{
    reveal(joins_closely);
    assert forall|from: int, to: int|
        first <= from && to == from + 8 && to <= next + 1 implies #[trigger] has_edit(
        facts,
        from,
        to,
    ) by {
        if to <= last + 1 {
            assert(has_edit(facts, from, to));
        } else if from <= last {
            assert(facts[last] is Edit);
        } else {
            assert(facts[next] is Edit);
        }
    }
}

/// Every replacement joins replacements of the list; every other fact is one of the list.
pub open spec fn comes_from(facts: Seq<LineFact>, coalesced: Seq<LineFact>) -> bool {
    forall|k: int|
        0 <= k < coalesced.len() ==> if (#[trigger] coalesced[k]) is Edit {
            joins_edits(facts, coalesced[k])
        } else {
            facts.contains(coalesced[k])
        }
}

/// A replacement that only weak rows follow is too far from the end for two halos to meet.
spec fn ends_apart(facts: Seq<LineFact>) -> bool {
    forall|i: int|
        0 <= i < facts.len() && (#[trigger] facts[i]) is Edit && weak_between(
            facts,
            i,
            facts.len() as int,
        ) ==> !halos_meet(facts.len() - i - 1)
}

/// No replacement is followed by weak rows alone.
spec fn ends_closed(facts: Seq<LineFact>) -> bool {
    forall|i: int|
        0 <= i < facts.len() && (#[trigger] facts[i]) is Edit ==> !weak_between(
            facts,
            i,
            facts.len() as int,
        )
}

/// Weak rows behind settled facts.
proof fn lemma_settled_weak(facts: Seq<LineFact>, weak: Seq<LineFact>)
    requires
        are_settled(facts),
        forall|k: int| 0 <= k < weak.len() ==> is_weak(#[trigger] weak[k]),
    ensures
        are_settled(facts + weak),
        ends_closed(facts) ==> ends_closed(facts + weak),
{
    let all = facts + weak;
    assert forall|i: int, j: int|
        0 <= i < j < all.len() && (#[trigger] all[i]) is Edit && (#[trigger] all[j]) is Edit
            && weak_between(all, i, j) implies !halos_meet(j - i - 1) by {
        assert(j < facts.len()) by {
            if j >= facts.len() {
                assert(is_weak(weak[j - facts.len()]));
            }
        }
        assert(facts[i] is Edit && facts[j] is Edit);
        assert(weak_between(facts, i, j)) by {
            assert forall|k: int| i < k < j implies is_weak(#[trigger] facts[k]) by {
                assert(is_weak(all[k]));
            }
        }
    }
    if ends_closed(facts) {
        assert forall|i: int| 0 <= i < all.len() && (#[trigger] all[i]) is Edit implies !weak_between(
            all,
            i,
            all.len() as int,
        ) by {
            if i >= facts.len() {
                assert(is_weak(weak[i - facts.len()]));
            }
            assert(facts[i] is Edit);
            if weak_between(all, i, all.len() as int) {
                assert forall|k: int| i < k < facts.len() implies is_weak(#[trigger] facts[k]) by {
                    assert(is_weak(all[k]));
                }
                assert(weak_between(facts, i, facts.len() as int));
            }
        }
    }
}

/// A replacement far enough behind settled facts, and weak rows behind it.
proof fn lemma_settled_edit(facts: Seq<LineFact>, edit: LineFact, weak: Seq<LineFact>)
    requires
        are_settled(facts),
        ends_apart(facts),
        edit is Edit,
        forall|k: int| 0 <= k < weak.len() ==> is_weak(#[trigger] weak[k]),
    ensures
        are_settled(facts.push(edit) + weak),
        !halos_meet(weak.len() as int) ==> ends_apart(facts.push(edit) + weak),
{
    let first = facts.push(edit);
    let n = facts.len() as int;
    assert forall|i: int, j: int|
        0 <= i < j < first.len() && (#[trigger] first[i]) is Edit && (#[trigger] first[j]) is Edit
            && weak_between(first, i, j) implies !halos_meet(j - i - 1) by {
        assert(facts[i] is Edit);
        assert forall|k: int| i < k < j implies is_weak(#[trigger] facts[k]) by {
            assert(is_weak(first[k]));
        }
        if j < n {
            assert(facts[j] is Edit);
            assert(weak_between(facts, i, j));
        } else {
            assert(weak_between(facts, i, n));
        }
    }
    lemma_settled_weak(first, weak);
    let all = first + weak;
    if !halos_meet(weak.len() as int) {
        assert forall|i: int|
            0 <= i < all.len() && (#[trigger] all[i]) is Edit && weak_between(
                all,
                i,
                all.len() as int,
            ) implies !halos_meet(all.len() - i - 1) by {
            if i > n {
                assert(is_weak(weak[i - n - 1]));
            }
            if i < n {
                assert(all[n] == edit);
                assert(is_weak(all[n]));
            }
        }
    }
}

/// A strong fact behind settled facts.
proof fn lemma_settled_strong(facts: Seq<LineFact>, fact: LineFact)
    requires
        are_settled(facts),
        is_strong(fact),
        !(fact is Edit),
    ensures
        are_settled(facts.push(fact)),
        ends_closed(facts.push(fact)),
{
    let all = facts.push(fact);
    let n = facts.len() as int;
    assert forall|i: int, j: int|
        0 <= i < j < all.len() && (#[trigger] all[i]) is Edit && (#[trigger] all[j]) is Edit
            && weak_between(all, i, j) implies !halos_meet(j - i - 1) by {
        assert(j < n);
        assert(facts[i] is Edit && facts[j] is Edit);
        assert forall|k: int| i < k < j implies is_weak(#[trigger] facts[k]) by {
            assert(is_weak(all[k]));
        }
        assert(weak_between(facts, i, j));
    }
    assert forall|i: int| 0 <= i < all.len() && (#[trigger] all[i]) is Edit implies !weak_between(
        all,
        i,
        all.len() as int,
    ) by {
        assert(i < n);
        assert(all[n] == fact);
        assert(!is_weak(all[n]));
    }
}

/// One more fact in the list takes nothing from what comes from it.
proof fn lemma_comes_from_more(facts: Seq<LineFact>, count: int, coalesced: Seq<LineFact>)
    requires
        0 <= count < facts.len(),
        comes_from(facts.take(count), coalesced),
    ensures
        comes_from(facts.take(count + 1), coalesced),
{
    let fewer = facts.take(count);
    let more = facts.take(count + 1);
    assert forall|k: int| 0 <= k < coalesced.len() implies if (#[trigger] coalesced[k]) is Edit {
        joins_edits(more, coalesced[k])
    } else {
        more.contains(coalesced[k])
    } by {
        if coalesced[k] is Edit {
            let (i, j) = choose|i: int, j: int|
                0 <= i <= j < fewer.len() && (#[trigger] fewer[i]) is Edit && (
                #[trigger] fewer[j]) is Edit && start_of(fewer[i]) == start_of(coalesced[k])
                    && end_of(fewer[j]) == end_of(coalesced[k]) && joins_closely(fewer, i, j);
            assert(more[i] == fewer[i] && more[j] == fewer[j]);
            lemma_closely_among(fewer, more, i, j);
        } else {
            let i = choose|i: int| 0 <= i < fewer.len() && fewer[i] == coalesced[k];
            assert(more[i] == fewer[i]);
        }
    }
}

/// What an open replacement and pending rows add.
spec fn with_open(facts: Seq<LineFact>, open: Option<LineFact>, pending: Seq<LineFact>) -> Seq<
    LineFact,
> {
    match open {
        Some(fact) => facts.push(fact) + pending,
        None => facts + pending,
    }
}

/// Weak exact rows remain context until a surrounding replacement claims their structure.
///
/// Replacements that only weak rows separate, no more than two halos and one row of them, become
/// one.
#[verifier::rlimit(60)]
#[verifier::spinoff_prover]
fn coalesce_weak_line_context(
    scene: &PlanScene<'_>,
    facts: Vec<LineFact>,
    Ghost(start): Ghost<Corner>,
    Ghost(end): Ghost<Corner>,
) -> (coalesced: Vec<LineFact>)
    requires
        scene.wf(),
        facts_ok(*scene, facts@),
        tiles(facts@, start, end),
    ensures
        facts_ok(*scene, coalesced@),
        tiles(coalesced@, start, end),
        forall|k: int|
            0 <= k < facts@.len() && is_strong(#[trigger] facts@[k]) ==> coalesced@.contains(
                facts@[k],
            ),
        are_settled(coalesced@),
        comes_from(facts@, coalesced@),
{
    let mut coalesced: Vec<LineFact> = Vec::new();
    let mut pending: Vec<LineFact> = Vec::new();
    let mut open: Option<LineFact> = None;
    let ghost mut edge = start;
    let ghost mut first: int = 0;
    proof {
        assert(tiles(coalesced@, start, start));
        lemma_tiles_order(facts@, start, end, *scene);
        assert(facts@.take(0) =~= Seq::<LineFact>::empty());
        assert(tiles(facts@.take(0), start, start));
    }
    let mut index: usize = 0;
    while index < facts.len()
        invariant
            scene.wf(),
            facts_ok(*scene, facts@),
            tiles(facts@, start, end),
            index <= facts@.len(),
            facts_ok(*scene, coalesced@),
            facts_ok(*scene, pending@),
            open matches Some(fact) ==> fact is Edit && fact_ok(*scene, fact),
            open matches Some(fact) ==> tiles(coalesced@, start, start_of(fact)) && tiles(
                pending@,
                end_of(fact),
                edge,
            ),
            open is None ==> exists|middle: Corner| #[trigger]
                tiles(coalesced@, start, middle) && tiles(pending@, middle, edge),
            tiles(facts@.take(index as int), start, edge),
            are_settled(coalesced@),
            forall|k: int| 0 <= k < pending@.len() ==> is_weak(#[trigger] pending@[k]),
            open is Some ==> ends_apart(coalesced@),
            open is None ==> ends_closed(coalesced@),
            comes_from(
                facts@.take(index as int),
                with_open(coalesced@, open, pending@),
            ),
            pending@.len() <= index,
            forall|k: int| index - pending@.len() <= k < index ==> is_weak(#[trigger] facts@[k]),
            open matches Some(fact) ==> {
                let last = index - pending@.len() - 1;
                &&& 0 <= first <= last
                &&& facts@[first] is Edit
                &&& facts@[last] is Edit
                &&& start_of(facts@[first]) == start_of(fact)
                &&& end_of(facts@[last]) == end_of(fact)
                &&& joins_closely(facts@, first, last)
            },
            forall|k: int|
                0 <= k < index && is_strong(#[trigger] facts@[k]) ==> coalesced@.contains(
                    facts@[k],
                ),
        decreases facts@.len() - index,
    {
        let ghost listed = coalesced@;
        let ghost shown = with_open(coalesced@, open, pending@);
        let fact = facts[index];
        proof {
            lemma_tiles_take(facts@, start, end, index as int);
            lemma_tiles_take(facts@, start, end, index + 1);
            lemma_tiles_unique(facts@.take(index as int), start, edge);
            assert(facts@.take(index + 1).drop_last() =~= facts@.take(index as int));
            assert(facts@.take(index + 1).last() == fact);
            let next = choose|next: Corner| #[trigger] tiles(facts@.take(index + 1), start, next);
            lemma_tiles_unique(facts@.take(index as int), start, start_of(fact));
            lemma_run_ends(facts@.take(index as int), start, edge, start_of(fact));
            assert(edge == start_of(fact));
            assert(fact_ok(*scene, facts@[index as int]));
            lemma_tiles_push(facts@.take(index as int), start, fact);
            assert(facts@.take(index as int).push(fact) =~= facts@.take(index + 1));
        }
        let ghost more = facts@.take(index + 1);
        let ghost waiting = pending@;
        proof {
            lemma_comes_from_more(facts@, index as int, shown);
            assert(more[index as int] == fact);
            match open {
                Some(edit) => {
                    lemma_settled_edit(coalesced@, edit, pending@);
                },
                None => {
                    lemma_settled_weak(coalesced@, pending@);
                },
            }
        }
        match fact {
            LineFact::Context { strong: false, .. } => {
                proof {
                    if open is Some {
                        lemma_tiles_push(pending@, end_of(open->0), fact);
                    } else {
                        let middle = choose|middle: Corner| #[trigger]
                            tiles(coalesced@, start, middle) && tiles(pending@, middle, edge);
                        lemma_tiles_push(pending@, middle, fact);
                    }
                }
                pending.push(fact);
                proof {
                    let now = with_open(coalesced@, open, pending@);
                    assert(now =~= shown.push(fact));
                    assert forall|k: int| 0 <= k < now.len() implies if (
                    #[trigger] now[k]) is Edit {
                        joins_edits(more, now[k])
                    } else {
                        more.contains(now[k])
                    } by {
                        if k < shown.len() {
                            assert(now[k] == shown[k]);
                        }
                    }
                }
            },
            LineFact::Edit { before, after } => {
                let joined = match open {
                    Some(LineFact::Edit { before: old_before, after: old_after }) => if context_gap_fits_halos(
                        pending.len(),
                    ) {
                        Some(
                            LineFact::Edit {
                                before: Span { start: old_before.start, end: before.end },
                                after: Span { start: old_after.start, end: after.end },
                            },
                        )
                    } else {
                        None
                    },
                    _ => None,
                };
                if joined.is_some() {
                    proof {
                        lemma_tiles_order(pending@, end_of(open->0), edge, *scene);
                    }
                    let ghost earlier = open->0;
                    open = joined;
                    pending.clear();
                    assert(tiles(pending@, end_of(fact), end_of(fact)));
                    proof {
                        assert(shown[listed.len() as int] == earlier);
                        assert(joins_edits(more, earlier));
                        lemma_closely_next(
                            facts@,
                            first,
                            index - waiting.len() - 1,
                            index as int,
                        );
                        lemma_closely_among(facts@, more, first, index as int);
                        assert(more[first] is Edit && more[index as int] is Edit);
                        assert(joins_edits(more, open->0));
                        let now = with_open(coalesced@, open, pending@);
                        assert forall|k: int| 0 <= k < now.len() implies if (
                        #[trigger] now[k]) is Edit {
                            joins_edits(more, now[k])
                        } else {
                            more.contains(now[k])
                        } by {
                            if k < listed.len() {
                                assert(now[k] == shown[k]);
                            }
                        }
                    }
                } else {
                    flush(scene, &mut coalesced, &mut pending, open, Ghost(start), Ghost(edge));
                    proof {
                        assert(coalesced@ =~= shown);
                        if open is None {
                            assert(ends_apart(coalesced@));
                        }
                        let now = coalesced@.push(fact) + pending@;
                        assert(more[index as int] is Edit);
                        lemma_closely_alone(facts@, index as int);
                        lemma_closely_alone(more, index as int);
                        assert(joins_edits(more, fact));
                        first = index as int;
                        assert forall|k: int| 0 <= k < now.len() implies if (
                        #[trigger] now[k]) is Edit {
                            joins_edits(more, now[k])
                        } else {
                            more.contains(now[k])
                        } by {
                            if k < shown.len() {
                                assert(now[k] == shown[k]);
                            }
                        }
                    }
                    open = Some(fact);
                    assert(tiles(pending@, end_of(fact), end_of(fact)));
                }
            },
            _ => {
                flush(scene, &mut coalesced, &mut pending, open, Ghost(start), Ghost(edge));
                open = None;
                proof {
                    lemma_tiles_push(coalesced@, start, fact);
                }
                proof {
                    assert(coalesced@ =~= shown);
                    lemma_settled_strong(coalesced@, fact);
                    let now = coalesced@.push(fact) + pending@;
                    assert forall|k: int| 0 <= k < now.len() implies if (
                    #[trigger] now[k]) is Edit {
                        joins_edits(more, now[k])
                    } else {
                        more.contains(now[k])
                    } by {
                        if k < shown.len() {
                            assert(now[k] == shown[k]);
                        }
                    }
                }
                coalesced.push(fact);
                assert(coalesced@[coalesced@.len() - 1] == fact);
                assert(tiles(pending@, end_of(fact), end_of(fact)));
            },
        }
        proof {
            edge = end_of(fact);
            assert forall|k: int|
                0 <= k < index + 1 && is_strong(
                    #[trigger] facts@[k],
                ) implies coalesced@.contains(facts@[k]) by {
                if k < index {
                    let i = choose|i: int| 0 <= i < listed.len() && listed[i] == facts@[k];
                    assert(coalesced@[i] == listed[i]);
                }
            }
        }
        index += 1;
    }
    let ghost listed = coalesced@;
    proof {
        match open {
            Some(edit) => {
                lemma_settled_edit(coalesced@, edit, pending@);
            },
            None => {
                lemma_settled_weak(coalesced@, pending@);
            },
        }
    }
    flush(scene, &mut coalesced, &mut pending, open, Ghost(start), Ghost(edge));
    proof {
        assert forall|k: int|
            0 <= k < facts@.len() && is_strong(#[trigger] facts@[k]) implies coalesced@.contains(
            facts@[k],
        ) by {
            let i = choose|i: int| 0 <= i < listed.len() && listed[i] == facts@[k];
            assert(coalesced@[i] == listed[i]);
        }
        assert(facts@.take(index as int) =~= facts@);
        lemma_run_ends(facts@, start, edge, end);
    }
    coalesced
}

/// A run that starts and ends somewhere ends at one place only.
proof fn lemma_run_ends(facts: Seq<LineFact>, start: Corner, left: Corner, right: Corner)
    requires
        tiles(facts, start, left),
        tiles(facts, start, right),
    ensures
        left == right,
{
    if facts.len() == 0 {
    }
}

proof fn lemma_tiles_unique(facts: Seq<LineFact>, start: Corner, end: Corner)
    ensures
        facts.len() > 0 && tiles(facts, start, end) ==> end == end_of(facts.last()),
{
}

/// A beginning of a run is a run that ends where the next fact starts.
proof fn lemma_tiles_take(facts: Seq<LineFact>, start: Corner, end: Corner, count: int)
    requires
        tiles(facts, start, end),
        0 <= count <= facts.len(),
    ensures
        count < facts.len() ==> tiles(facts.take(count), start, start_of(facts[count])),
        count == facts.len() ==> tiles(facts.take(count), start, end),
    decreases facts.len() - count,
{
    if count == facts.len() {
        assert(facts.take(count) =~= facts);
    } else {
        lemma_tiles_take(facts, start, end, count + 1);
        assert(facts.take(count + 1).drop_last() =~= facts.take(count));
        assert(facts.take(count + 1).last() == facts[count]);
    }
}

/// Close an open replacement and hand over the rows behind it.
fn flush(
    scene: &PlanScene<'_>,
    facts: &mut Vec<LineFact>,
    pending: &mut Vec<LineFact>,
    open: Option<LineFact>,
    Ghost(start): Ghost<Corner>,
    Ghost(edge): Ghost<Corner>,
)
    requires
        facts_ok(*scene, old(facts)@),
        facts_ok(*scene, old(pending)@),
        open matches Some(fact) ==> fact_ok(*scene, fact) && tiles(
            old(facts)@,
            start,
            start_of(fact),
        ) && tiles(old(pending)@, end_of(fact), edge),
        open is None ==> exists|middle: Corner| #[trigger]
            tiles(old(facts)@, start, middle) && tiles(old(pending)@, middle, edge),
    ensures
        facts_ok(*scene, final(facts)@),
        tiles(final(facts)@, start, edge),
        final(pending)@.len() == 0,
        old(facts)@.is_prefix_of(final(facts)@),
        final(facts)@ == with_open(old(facts)@, open, old(pending)@),
{
    let ghost mut middle: Corner;
    match open {
        Some(fact) => {
            proof {
                lemma_tiles_push(facts@, start, fact);
                middle = end_of(fact);
            }
            facts.push(fact);
        },
        None => {
            proof {
                middle =
                choose|middle: Corner| #[trigger]
                    tiles(facts@, start, middle) && tiles(pending@, middle, edge);
            }
        },
    }
    let ghost first = facts@;
    let ghost second = pending@;
    proof {
        lemma_tiles_concat(first, second, start, middle, edge);
    }
    facts.append(pending);
    proof {
        assert(facts@ =~= first + second);
        assert forall|k: int| 0 <= k < facts@.len() implies fact_ok(*scene, #[trigger] facts@[k]) by {
            if k >= first.len() {
                assert(facts@[k] == second[k - first.len()]);
            }
        }
    }
}

/// Facts of a region: retained structure first, then exact rows in the gaps.
pub fn region_facts(
    scene: &PlanScene<'_>,
    before: Span,
    after: Span,
    composites: &[NodeLink],
    basis: AnchorBasis,
) -> (facts: Vec<LineFact>)
    requires
        scene.wf(),
        before.start <= before.end <= scene.before_count(),
        after.start <= after.end <= scene.after_count(),
        forall|k: int|
            0 <= k < composites@.len() ==> scene.graph.tree.composites@.contains(
                #[trigger] composites@[k],
            ),
    ensures
        facts_ok(*scene, facts@),
        tiles(
            facts@,
            Corner { before: before.start as int, after: after.start as int },
            Corner { before: before.end as int, after: after.end as int },
        ),
        are_settled(facts@),
        are_region_facts(*scene, before, after, composites@, basis, facts@),
{
    let retained = retained_regions(scene, composites, before, after);
    let facts = line_facts(scene, before, after, &retained, basis);
    assert(follow_regions(*scene, before, after, composites@, basis, retained@, facts@));
    facts
}

/// The facts follow the retained structure of the composites and the matched rows between it.
pub open spec fn follow_regions(
    scene: PlanScene<'_>,
    before: Span,
    after: Span,
    composites: Seq<NodeLink>,
    basis: AnchorBasis,
    regions: Seq<RetainedRegion>,
    facts: Seq<LineFact>,
) -> bool {
    &&& takes_regions(scene, composites, before, after, regions)
    &&& forall|k: int|
        0 <= k < regions.len() ==> retained_by(
            scene,
            composites,
            #[trigger] regions[k],
            before,
            after,
        )
    &&& keeps_checkpoints(scene, regions, before, after, basis, facts)
    &&& joins_plain_facts(scene, regions, before, after, basis, facts)
    &&& are_founded(scene, regions, basis, facts)
}

/// Facts that account for every row of two ranges once, from the composites and the matched rows.
pub open spec fn are_region_facts(
    scene: PlanScene<'_>,
    before: Span,
    after: Span,
    composites: Seq<NodeLink>,
    basis: AnchorBasis,
    facts: Seq<LineFact>,
) -> bool {
    &&& facts_ok(scene, facts)
    &&& tiles(
        facts,
        Corner { before: before.start as int, after: after.start as int },
        Corner { before: before.end as int, after: after.end as int },
    )
    &&& are_settled(facts)
    &&& exists|regions: Seq<RetainedRegion>| #[trigger]
        follow_regions(scene, before, after, composites, basis, regions, facts)
}

/// Without composites there is no retained structure, and no reflow.
pub proof fn lemma_no_reflow_facts(
    scene: PlanScene<'_>,
    before: Span,
    after: Span,
    composites: Seq<NodeLink>,
    basis: AnchorBasis,
    facts: Seq<LineFact>,
)
    requires
        are_region_facts(scene, before, after, composites, basis, facts),
        composites.len() == 0,
    ensures
        forall|k: int| 0 <= k < facts.len() ==> !((#[trigger] facts[k]) is Reflow),
{
    reveal(are_founded);
    let regions = choose|regions: Seq<RetainedRegion>| #[trigger]
        follow_regions(scene, before, after, composites, basis, regions, facts);
    assert forall|k: int| 0 <= k < facts.len() implies !((#[trigger] facts[k]) is Reflow) by {
        assert(is_founded(scene, regions, basis, facts[k]));
        if let LineFact::Reflow { before: old_rows, after: new_rows } = facts[k] {
            let r = choose|r: int|
                0 <= r < regions.len() && (#[trigger] regions[r]).retention == Retention::Reflow
                    && regions[r].before == old_rows && regions[r].after == new_rows;
            assert(retained_by(scene, composites, regions[r], before, after));
        }
    }
}

} // verus!
